use nvidia_curves::config_readers::{ConfReader, ConfReaderError};
use nvidia_curves::curves::{
    CurveConfLoadingError, CurveLoadError, CurveManager, CurvePoint, InvalidProfileNameError,
};

struct TestConfReader {
    conf_string: String,
}

impl ConfReader for TestConfReader {
    fn get_conf_string(&self) -> Result<String, ConfReaderError> {
        Ok(self.conf_string.clone())
    }
}

struct FailingReader;

impl ConfReader for FailingReader {
    fn get_conf_string(&self) -> Result<String, ConfReaderError> {
        Err(ConfReaderError::IoError(
            String::from("/nowhere/curves.conf"),
            String::from("file not found"),
        ))
    }
}

fn parse(text: &str) -> Result<CurveManager, CurveConfLoadingError> {
    let mut manager = CurveManager::new();
    manager.load_profiles(text)?;
    Ok(manager)
}

fn points(manager: &CurveManager, name: Option<&str>) -> Vec<(u32, u32)> {
    let key = name.map(|n| n.to_string());
    let curve = manager.get_curve(&key).expect("profile should exist");
    curve.iter().map(|p| (p.temperature, p.speed)).collect()
}

#[test]
fn unexpected_character() {
    let conf_reader = TestConfReader { conf_string: "asdsqds".to_string() };
    let manager = CurveManager::from_reader(&conf_reader);
    assert!(manager.is_err());
}

#[test]
fn unexpected_empty_line() {
    let conf_reader = TestConfReader { conf_string: "\n[profile1]\n12 54\n54 88\n".to_string() };
    let manager = CurveManager::from_reader(&conf_reader);
    assert!(manager.is_err());
    if let Err(e) = manager {
        assert!(matches!(
            e,
            CurveLoadError::Conf(CurveConfLoadingError::UnexpectedEmptyLine(line)) if line == 1
        ));
    }
}

#[test]
fn empty_text_gives_single_empty_default_curve() {
    let manager = parse("").expect("empty text must parse");
    assert_eq!(points(&manager, None), vec![]);
}

#[test]
fn two_profiles_parse_to_their_points() {
    let manager = parse("[quiet]\n30 20\n60 50\n\n[loud]\n30 50\n60 90\n").unwrap();
    assert_eq!(points(&manager, Some("quiet")), vec![(30, 20), (60, 50)]);
    assert_eq!(points(&manager, Some("loud")), vec![(30, 50), (60, 90)]);
    assert!(manager.get_curve(&Some("silent".to_string())).is_none());
    assert!(manager.get_curve(&None).is_none());
}

#[test]
fn blank_separator_starts_unnamed_block() {
    let manager = parse("[p]\n10 10\n\n20 20\n").unwrap();
    assert_eq!(points(&manager, Some("p")), vec![(10, 10)]);
    assert_eq!(points(&manager, None), vec![(20, 20)]);
}

#[test]
fn whitespace_only_line_is_an_empty_line_error() {
    let r = parse("[p]\n10 10\n \n20 20\n");
    assert!(matches!(r, Err(CurveConfLoadingError::UnexpectedEmptyLine(3))));
}

#[test]
fn speed_101_fails_with_domain_error_whatever_the_temperature() {
    assert!(matches!(
        parse("50 101\n"),
        Err(CurveConfLoadingError::InvalidCurvePoint(101))
    ));
    assert!(matches!(
        parse("[p]\n0 101\n"),
        Err(CurveConfLoadingError::InvalidCurvePoint(101))
    ));
    assert!(matches!(
        parse("4294967295 101\n"),
        Err(CurveConfLoadingError::InvalidCurvePoint(101))
    ));
}

#[test]
fn speed_100_always_parses() {
    let manager = parse("50 100\n").unwrap();
    assert_eq!(points(&manager, None), vec![(50, 100)]);
    let manager = parse("[p]\n0 100\n90 100\n").unwrap();
    assert_eq!(points(&manager, Some("p")), vec![(0, 100), (90, 100)]);
}

#[test]
fn curve_point_new_checks_the_speed_domain() {
    let p = CurvePoint::new(7, 100).expect("speed 100 is valid");
    assert_eq!(p.temperature, 7);
    assert_eq!(p.speed, 100);
    let e = CurvePoint::new(7, 101).expect_err("speed 101 is invalid");
    assert_eq!(e.value, 101);
}

#[test]
fn bad_tokens_fail_with_character_error() {
    assert!(matches!(parse("ab cd\n"), Err(CurveConfLoadingError::UnexpectedCharacter(1))));
    assert!(matches!(parse("1 2 3\n"), Err(CurveConfLoadingError::UnexpectedCharacter(1))));
    assert!(matches!(parse("10\n"), Err(CurveConfLoadingError::UnexpectedCharacter(1))));
    assert!(matches!(
        parse("10 20\n1 99999999999999\n"),
        Err(CurveConfLoadingError::UnexpectedCharacter(2))
    ));
    assert!(matches!(parse("-1 20\n"), Err(CurveConfLoadingError::UnexpectedCharacter(1))));
}

#[test]
fn profile_name_validation() {
    assert!(matches!(
        parse("[]\n10 10\n"),
        Err(CurveConfLoadingError::InvalidProfileName(InvalidProfileNameError::Empty))
    ));
    let long = format!("[{}]\n10 10\n", "a".repeat(65));
    assert!(matches!(
        parse(&long),
        Err(CurveConfLoadingError::InvalidProfileName(InvalidProfileNameError::TooBig))
    ));
    assert!(matches!(
        parse("[a[b]\n10 10\n"),
        Err(CurveConfLoadingError::InvalidProfileName(InvalidProfileNameError::WrongCharacters))
    ));
    assert!(matches!(
        parse("[a\tb]\n10 10\n"),
        Err(CurveConfLoadingError::InvalidProfileName(InvalidProfileNameError::WrongCharacters))
    ));
    let just_fits = format!("[{}]\n10 10\n", "a".repeat(64));
    let manager = parse(&just_fits).unwrap();
    assert_eq!(points(&manager, Some(&"a".repeat(64))), vec![(10, 10)]);
}

#[test]
fn later_block_overwrites_earlier_profile() {
    let manager = parse("[a]\n1 1\n\n[a]\n2 2\n").unwrap();
    assert_eq!(points(&manager, Some("a")), vec![(2, 2)]);
}

#[test]
fn second_header_in_a_block_overwrites_the_name() {
    let manager = parse("[a]\n1 1\n[b]\n2 2\n").unwrap();
    assert!(manager.get_curve(&Some("a".to_string())).is_none());
    assert_eq!(points(&manager, Some("b")), vec![(1, 1), (2, 2)]);
}

#[test]
fn parse_profile_reads_one_block() {
    let (name, pts) = CurveManager::parse_profile("[x]\n10 20\n30 40", 1).unwrap();
    assert_eq!(name, Some("x".to_string()));
    let got: Vec<(u32, u32)> = pts.iter().map(|p| (p.temperature, p.speed)).collect();
    assert_eq!(got, vec![(10, 20), (30, 40)]);
}

#[test]
fn parse_profile_reports_the_given_line_numbers() {
    let r = CurveManager::parse_profile("10 20\nbad line", 5);
    assert!(matches!(r, Err(CurveConfLoadingError::UnexpectedCharacter(6))));
}

#[test]
fn from_reader_reports_reader_errors() {
    let r = CurveManager::from_reader(&FailingReader);
    assert!(matches!(r, Err(CurveLoadError::Reader(ConfReaderError::IoError(_, _)))));
}

#[test]
fn error_line_numbers_count_blocks_and_separators() {
    // lines: 1 "[a]", 2 "1 1", 3 separator, 4 "x" -> character error at 4
    let r = parse("[a]\n1 1\n\nx\n");
    assert!(matches!(r, Err(CurveConfLoadingError::UnexpectedCharacter(4))));
    // an empty line right after a separator: the new block starts with it
    let r = parse("[a]\n1 1\n\n\n2 2\n");
    assert!(matches!(r, Err(CurveConfLoadingError::UnexpectedEmptyLine(4))));
}

#[test]
fn points_may_be_separated_by_tabs_and_extra_spaces() {
    let manager = parse("  10\t20  \n").unwrap();
    assert_eq!(points(&manager, None), vec![(10, 20)]);
}

#[test]
fn trailing_separator_leaves_an_empty_default_curve() {
    let manager = parse("10 10\n\n").unwrap();
    assert_eq!(points(&manager, None), vec![]);
}
