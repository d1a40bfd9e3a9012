use df::series::Series;
use df::strings::StringStorage;

fn rows(vals: Vec<Option<&str>>) -> Series<StringStorage> {
    Series::<StringStorage>::from_options(
        vals.into_iter().map(|v| v.map(|s| s.as_bytes().to_vec())).collect(),
    )
}

fn shown(series: &Series<StringStorage>) -> Vec<String> {
    series
        .to_vec(Vec::new())
        .into_iter()
        .map(|v| String::from_utf8(v).unwrap())
        .collect()
}

#[test]
fn map_in_place_string_same_length() {
    let series = rows(vec![Some("hello"), None, Some("world")])
        .map_in_place(|s: Vec<u8>| s.iter().map(|c| c.to_ascii_uppercase()).collect());

    assert_eq!(
        vec!["HELLO".to_string(), "".to_string(), "WORLD".to_string()],
        shown(&series)
    );
}

#[test]
fn map_in_place_string_shorter() {
    let series = rows(vec![Some("hello"), None, Some("world")])
        .map_in_place(|s: Vec<u8>| s[0..2].iter().map(|c| c.to_ascii_uppercase()).collect());

    assert_eq!(
        vec!["HE".to_string(), "".to_string(), "WO".to_string()],
        shown(&series)
    );
}

#[test]
fn map_in_place_string_longer() {
    let series = rows(vec![Some("hello"), None, Some("world")]).map_in_place(|s: Vec<u8>| {
        let mut out = s.clone();
        out.extend(s.iter().map(|c| c.to_ascii_uppercase()));
        out
    });

    assert_eq!(
        vec!["helloHELLO".to_string(), "".to_string(), "worldWORLD".to_string()],
        shown(&series)
    );
}

#[test]
fn zip_in_place_string() {
    let series1 = rows(vec![Some("hello"), None, Some("world")]);
    let series2 = rows(vec![None, Some("123"), Some("456")]);

    let series = series1.add(series2);
    assert_eq!(
        vec!["".to_string(), "".to_string(), "world456".to_string()],
        shown(&series)
    );
}

#[test]
fn concat_keeps_both_sides_in_order() {
    let series1 = rows(vec![Some("ab"), Some("c")]);
    let series2 = rows(vec![Some("xy"), Some("z")]);
    assert_eq!(vec!["abxy".to_string(), "cz".to_string()], shown(&series1.add(series2)));
}

#[test]
fn string_get_and_len() {
    let series = rows(vec![Some("one"), None]);
    assert_eq!(2, series.len());
    assert_eq!(Some(b"one".to_vec()), series.get(0));
    assert_eq!(None, series.get(1));
}
