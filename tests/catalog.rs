use pokedex_sort::catalog::select;
use pokedex_sort::heap;
use pokedex_sort::partition;
use pokedex_sort::record::{CatalogError, Date, Pokemon};
use pokedex_sort::record::parse_measure;

const BULBASAUR: &str =
    "1,1,Bulbasaur,Seed Pokémon,grass,poison,\"['Overgrow', 'Chlorophyll']\",6.9,0.7,45,0,05/04/1977";

fn line(id: i32, generation: i32, height: &str) -> String {
    format!(
        "{},{},Mon{},Test,normal,,\"['Run Away']\",1.0,{},10,0,01/02/2000",
        id, generation, id, height
    )
}

fn record(id: i32, generation: i32, height: &str) -> Pokemon {
    Pokemon::from_str(&line(id, generation, height)).unwrap()
}

fn ids(v: &[Pokemon]) -> Vec<i32> {
    v.iter().map(|p| p.id).collect()
}

fn tokens(items: &[&str]) -> Vec<String> {
    items.iter().map(|s| s.to_string()).collect()
}

#[test]
fn parse_full_line() {
    let p = Pokemon::from_str(BULBASAUR).unwrap();
    assert_eq!(p.id, 1);
    assert_eq!(p.generation, 1);
    assert_eq!(p.name, "Bulbasaur");
    assert_eq!(p.description, "Seed Pokémon");
    assert_eq!(p.types, vec!["grass".to_string(), "poison".to_string()]);
    assert_eq!(p.abilities, vec!["Overgrow".to_string(), "Chlorophyll".to_string()]);
    assert_eq!(p.weight.thousandths, 6900);
    assert_eq!(p.height.thousandths, 700);
    assert_eq!(p.capture_rate, 45);
    assert!(!p.is_legendary);
    assert_eq!(p.capture_date, Date { day: 5, month: 4, year: 1977 });
}

#[test]
fn parse_defaults_empty_optional_fields() {
    let p = Pokemon::from_str("7,2,Solo,Alone,water,,\"[]\",,,,1,").unwrap();
    assert_eq!(p.types, vec!["water".to_string()]);
    assert!(p.abilities.is_empty());
    assert_eq!(p.weight.thousandths, 0);
    assert_eq!(p.height.thousandths, 0);
    assert_eq!(p.capture_rate, 0);
    assert!(p.is_legendary);
    assert_eq!(p.capture_date, Date { day: 0, month: 0, year: 0 });
}

#[test]
fn parse_rejects_bad_number() {
    let r = Pokemon::from_str("x1,1,A,B,fire,,\"['Blaze']\",1.0,1.0,1,0,01/01/2000");
    assert_eq!(r.unwrap_err(), CatalogError::ParseError);
    let r = Pokemon::from_str("1,1,A,B,fire,,\"['Blaze']\",1.0.0,1.0,1,0,01/01/2000");
    assert_eq!(r.unwrap_err(), CatalogError::ParseError);
    let r = Pokemon::from_str("1,1,A,B,fire,,\"['Blaze']\",1.0,1.0,1,0,01-01-2000");
    assert_eq!(r.unwrap_err(), CatalogError::ParseError);
}

#[test]
fn parse_rejects_missing_fields() {
    let r = Pokemon::from_str("1,1,A,B,fire,,\"['Blaze']\",1.0,1.0");
    assert_eq!(r.unwrap_err(), CatalogError::FieldCountError);
    let r = Pokemon::from_str("1,1,A,B,fire,,,1.0,1.0,1,0,01/01/2000");
    assert_eq!(r.unwrap_err(), CatalogError::FieldCountError);
}

#[test]
fn new_is_all_zero() {
    let p = Pokemon::new();
    assert_eq!(p.id, 0);
    assert!(p.name.is_empty());
    assert!(p.types.is_empty());
    assert_eq!(p.height.thousandths, 0);
    assert_eq!(p.capture_date, Date { day: 0, month: 0, year: 0 });
}

#[test]
fn date_from_str() {
    assert_eq!(Date::from_str("5/4/1977").unwrap(), Date { day: 5, month: 4, year: 1977 });
    assert_eq!(Date::from_str("5/4").unwrap_err(), CatalogError::ParseError);
}

#[test]
fn render_full_record() {
    let p = Pokemon::from_str(BULBASAUR).unwrap();
    assert_eq!(
        p.to_string(),
        "[#1 -> Bulbasaur: Seed Pokémon - ['grass', 'poison'] - ['Overgrow', 'Chlorophyll'] - 6.9kg - 0.7m - 45% - false - 1 gen] - 05/04/1977"
    );
}

#[test]
fn render_defaults() {
    let p = Pokemon::from_str("7,2,Solo,Alone,water,,\"[]\",,,,1,").unwrap();
    assert_eq!(
        p.to_string(),
        "[#7 -> Solo: Alone - ['water'] - [] - 0.0kg - 0.0m - 0% - true - 2 gen] - 00/00/0"
    );
}

#[test]
fn render_rounds_to_one_decimal() {
    let p = Pokemon::from_str("3,1,A,B,fire,,\"['Blaze']\",10.25,2.04,3,0,12/11/1999").unwrap();
    assert_eq!(
        p.to_string(),
        "[#3 -> A: B - ['fire'] - ['Blaze'] - 10.3kg - 2.0m - 3% - false - 1 gen] - 12/11/1999"
    );
}

#[test]
fn load_skips_header_and_blank_lines() {
    let content = format!("header\n{}\n\n{}\n", line(1, 1, "1.0"), line(2, 2, "2.0"));
    let v = Pokemon::vec_from_file(&content).unwrap();
    assert_eq!(ids(&v), vec![1, 2]);
}

#[test]
fn load_fails_on_bad_line() {
    let content = format!("header\n{}\nbroken\n", line(1, 1, "1.0"));
    assert_eq!(Pokemon::vec_from_file(&content).unwrap_err(), CatalogError::FieldCountError);
}

fn dataset() -> Vec<Pokemon> {
    vec![record(1, 3, "1.0"), record(2, 1, "3.0"), record(3, 2, "2.0")]
}

#[test]
fn heap_sort_scenario() {
    let mut v = select(&dataset(), &tokens(&["1", "2", "3", "FIM"])).unwrap();
    heap::sort(&mut v);
    assert_eq!(ids(&v), vec![2, 3, 1]);
}

#[test]
fn partition_sort_scenario() {
    let mut v = select(&dataset(), &tokens(&["1", "2", "3", "FIM"])).unwrap();
    partition::sort(&mut v);
    assert_eq!(ids(&v), vec![2, 3, 1]);
}

#[test]
fn partition_sort_disambiguates_from_height() {
    let data = vec![record(1, 3, "3.0"), record(2, 1, "1.0"), record(3, 2, "2.0")];
    let mut by_gen = select(&data, &tokens(&["1", "2", "3", "FIM"])).unwrap();
    partition::sort(&mut by_gen);
    assert_eq!(ids(&by_gen), vec![2, 3, 1]);
    let mut by_height = select(&data, &tokens(&["1", "2", "3", "FIM"])).unwrap();
    heap::sort(&mut by_height);
    assert_eq!(ids(&by_height), vec![1, 3, 2]);
}

#[test]
fn selection_rejects_out_of_range() {
    assert_eq!(select(&dataset(), &tokens(&["0", "FIM"])).unwrap_err(), CatalogError::IndexError);
    assert_eq!(select(&dataset(), &tokens(&["4", "FIM"])).unwrap_err(), CatalogError::IndexError);
    assert_eq!(select(&dataset(), &tokens(&["x", "FIM"])).unwrap_err(), CatalogError::IndexError);
}

#[test]
fn selection_keeps_input_order_and_stops_at_terminator() {
    let v = select(&dataset(), &tokens(&["3", "1", "3", "FIM", "9"])).unwrap();
    assert_eq!(ids(&v), vec![3, 1, 3]);
}

#[test]
fn sorts_leave_empty_and_single_unchanged() {
    let mut empty: Vec<Pokemon> = Vec::new();
    heap::sort(&mut empty);
    partition::sort(&mut empty);
    assert!(empty.is_empty());
    let mut one = vec![record(5, 2, "1.5")];
    heap::sort(&mut one);
    assert_eq!(one, vec![record(5, 2, "1.5")]);
    partition::sort(&mut one);
    assert_eq!(one, vec![record(5, 2, "1.5")]);
}

#[test]
fn sorts_accept_equal_keys() {
    let mut v = vec![record(1, 4, "2.0"), record(2, 4, "2.0"), record(3, 4, "2.0")];
    heap::sort(&mut v);
    let mut got = ids(&v);
    got.sort();
    assert_eq!(got, vec![1, 2, 3]);
    partition::sort(&mut v);
    let mut got = ids(&v);
    got.sort();
    assert_eq!(got, vec![1, 2, 3]);
}

#[test]
fn sorting_sorted_input_is_stable_in_keys() {
    let mut v = vec![record(1, 1, "3.0"), record(2, 2, "2.0"), record(3, 3, "1.0")];
    heap::sort(&mut v);
    assert_eq!(ids(&v), vec![1, 2, 3]);
    partition::sort(&mut v);
    assert_eq!(ids(&v), vec![1, 2, 3]);
}

#[test]
fn sorts_larger_input() {
    let heights = ["0.5", "9.9", "3.3", "3.3", "7.0", "0.1", "12.0", "4.4"];
    let gens = [5, 1, 7, 3, 3, 2, 8, 1];
    let mut v: Vec<Pokemon> = (0..8).map(|k| record(k as i32 + 1, gens[k], heights[k])).collect();
    heap::sort(&mut v);
    for w in v.windows(2) {
        assert!(w[0].height.thousandths >= w[1].height.thousandths);
    }
    partition::sort(&mut v);
    for w in v.windows(2) {
        assert!(w[0].generation <= w[1].generation);
    }
    let mut got = ids(&v);
    got.sort();
    assert_eq!(got, (1..=8).collect::<Vec<i32>>());
}

#[test]
fn quick_sort_range_only() {
    let mut v = vec![record(1, 9, "1.0"), record(2, 5, "1.0"), record(3, 4, "1.0"), record(4, 0, "1.0")];
    partition::quick_sort(&mut v, 1, 2);
    assert_eq!(ids(&v), vec![1, 3, 2, 4]);
}

#[test]
fn round_trip_render_parse() {
    let full = "25,1,Pikachu,Mouse Pokémon,electric,,\"['Static', 'Lightning Rod']\",6.000,0.400,190,0,12/03/1996";
    let p = Pokemon::from_str(full).unwrap();
    assert_eq!(
        p.to_string(),
        "[#25 -> Pikachu: Mouse Pokémon - ['electric'] - ['Static', 'Lightning Rod'] - 6.0kg - 0.4m - 190% - false - 1 gen] - 12/03/1996"
    );
    let blank = "150,1,Mewtwo,Genetic Pokémon,psychic,,\"['Pressure']\",,,,1,";
    let q = Pokemon::from_str(blank).unwrap();
    assert_eq!(
        q.to_string(),
        "[#150 -> Mewtwo: Genetic Pokémon - ['psychic'] - ['Pressure'] - 0.0kg - 0.0m - 0% - true - 1 gen] - 00/00/0"
    );
}

#[test]
fn measure_rounds_extra_fraction_digits() {
    let m = |t: &str| parse_measure(&t.chars().collect()).map(|m| m.thousandths);
    assert_eq!(m("0.1234"), Some(123));
    assert_eq!(m("0.1235"), Some(124));
    assert_eq!(m("2.99999"), Some(3000));
    assert_eq!(m("6.9"), Some(6900));
    assert_eq!(m(".5"), Some(500));
    assert_eq!(m("1.2a45"), None);
    assert_eq!(m("."), None);
}

#[test]
fn heap_helpers_build_max_heap() {
    let mut v = vec![record(1, 1, "1.0"), record(2, 1, "2.0")];
    heap::check_position_up(&mut v, 1);
    assert_eq!(ids(&v), vec![2, 1]);
    heap::check_position_up(&mut v, 1);
    assert_eq!(ids(&v), vec![2, 1]);
    let mut w = vec![record(1, 1, "1.0"), record(2, 1, "2.0"), record(3, 1, "3.0")];
    heap::heapify(&mut w);
    assert_eq!(w[0].id, 3);
    let before = ids(&w);
    heap::heapify(&mut w);
    assert_eq!(ids(&w), before);
    let mut d = vec![record(1, 1, "1.0"), record(2, 1, "2.0"), record(3, 1, "5.0")];
    heap::check_position_down(&mut d, 0, 3);
    assert_eq!(ids(&d), vec![3, 2, 1]);
}

#[test]
fn quick_sort_single_position_untouched() {
    let mut v = vec![record(1, 9, "1.0"), record(2, 5, "1.0")];
    partition::quick_sort(&mut v, 1, 1);
    assert_eq!(ids(&v), vec![1, 2]);
    partition::quick_sort(&mut v, 1, 0);
    assert_eq!(ids(&v), vec![1, 2]);
}
