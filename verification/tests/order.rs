use chessing::game::order::{comes_first, insert_text};

fn chars(text: &str) -> Vec<char> {
    text.chars().collect()
}

#[test]
fn texts_stand_in_the_order_of_dictionaries() {
    assert!(comes_first(&chars(""), &chars("")));
    assert!(comes_first(&chars(""), &chars("a")));
    assert!(!comes_first(&chars("a"), &chars("")));
    assert!(comes_first(&chars("a2a3"), &chars("a2a4")));
    assert!(!comes_first(&chars("a2a4"), &chars("a2a3")));
    assert!(comes_first(&chars("e2e4"), &chars("e2e4")));
    assert!(comes_first(&chars("e7e8"), &chars("e7e8q")));
    assert!(!comes_first(&chars("e7e8q"), &chars("e7e8")));
    assert!(comes_first(&chars("Z"), &chars("a")));
    assert!(comes_first(&chars("10"), &chars("9")));
    let samples = ["", "a", "ab", "b", "a2a3 - 20", "a2a4 - 20", "é", "z", "Z", "10", "9"];
    for a in samples.iter() {
        for b in samples.iter() {
            assert_eq!(comes_first(&chars(a), &chars(b)), a <= b);
        }
    }
}

#[test]
fn texts_are_put_in_their_place() {
    let mut rows: Vec<Vec<char>> = Vec::new();
    let texts = ["g1f3", "a2a3", "e2e4", "a2a4", "h2h4", "e2e4", "b1c3", ""];
    for text in texts.iter() {
        insert_text(&mut rows, chars(text));
    }
    let got: Vec<String> = rows.iter().map(|row| row.iter().collect()).collect();
    let mut want: Vec<String> = texts.iter().map(|text| text.to_string()).collect();
    want.sort();
    assert_eq!(got, want);
    assert_eq!(got, vec!["", "a2a3", "a2a4", "b1c3", "e2e4", "e2e4", "g1f3", "h2h4"]);
}
