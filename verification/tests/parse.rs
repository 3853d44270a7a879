use ddcrate::parse::{parse_ranks, parse_row, parse_u64, ResultReadError};
use ddcrate::tournament::InvalidTournament;
use ddcrate::team::{RepeatedPlayer, Team};

fn row(fields: &[&str]) -> Vec<String> {
    fields.iter().map(|f| f.to_string()).collect()
}

#[test]
fn numbers_are_read_as_std_reads_them() {
    let texts = [
        "0",
        "12",
        "+7",
        "00012",
        "",
        "+",
        "-1",
        "-0",
        "++1",
        "1+",
        "1a",
        " 1",
        "1 ",
        "1.5",
        "18446744073709551615",
        "18446744073709551616",
        "+18446744073709551615",
        "99999999999999999999999",
        "१२",
    ];
    for text in texts {
        assert_eq!(parse_u64(text), text.parse::<u64>().ok());
    }
    assert_eq!(parse_u64("12"), Some(12));
    assert_eq!(parse_u64("+7"), Some(7));
    assert_eq!(parse_u64("18446744073709551615"), Some(u64::MAX));
    assert_eq!(parse_u64("18446744073709551616"), None);
    assert_eq!(parse_u64(""), None);
    assert_eq!(parse_u64("+"), None);
}

#[test]
fn row_gives_place_and_players() {
    assert_eq!(parse_row(&row(&["1", "20", "10"])), Some((1, 20, 10)));
    assert_eq!(parse_row(&row(&["1", "20", "10", "a note"])), Some((1, 20, 10)));
    assert_eq!(parse_row(&row(&["1", "20"])), None);
    assert_eq!(parse_row(&row(&[])), None);
    assert_eq!(parse_row(&row(&["first", "20", "10"])), None);
    assert_eq!(parse_row(&row(&["1", "x", "10"])), None);
    assert_eq!(parse_row(&row(&["1", "20", ""])), None);
}

#[test]
fn rows_give_results_in_their_order() {
    let rows = vec![
        row(&["place", "player", "player"]),
        row(&["2", "4", "3"]),
        row(&["1", "1", "2"]),
        row(&["3"]),
    ];
    assert_eq!(
        parse_ranks(&rows).unwrap(),
        vec![
            (2, Team::new(3, 4).unwrap()),
            (1, Team::new(1, 2).unwrap())
        ]
    );
    assert!(parse_ranks(&Vec::new()).unwrap().is_empty());
}

#[test]
fn row_with_one_player_twice_ends_the_reading() {
    let rows = vec![
        row(&["1", "1", "2"]),
        row(&["2", "5", "5"]),
        row(&["3", "6", "6"]),
    ];
    assert!(matches!(
        parse_ranks(&rows),
        Err(ResultReadError::InvalidTournament(
            InvalidTournament::RepeatedPlayer(RepeatedPlayer(5))
        ))
    ));
}

#[test]
fn errors_convert_upwards() {
    let inner = InvalidTournament::from(RepeatedPlayer(3));
    assert_eq!(inner, InvalidTournament::RepeatedPlayer(RepeatedPlayer(3)));
    assert!(matches!(
        ResultReadError::from(inner),
        ResultReadError::InvalidTournament(InvalidTournament::RepeatedPlayer(RepeatedPlayer(3)))
    ));
    let io = std::io::Error::new(std::io::ErrorKind::Other, "Could not parse TSV");
    assert!(matches!(ResultReadError::from(io), ResultReadError::Io(_)));
}
