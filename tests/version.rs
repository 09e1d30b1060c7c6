use std::cmp::Ordering;
use std::str::FromStr;

use debian_version::error::DebianVersionError;
use debian_version::ordering::compare_segments;
use debian_version::validations::{only_valid_chars, ValidateDebianRevision, ValidateUpstreamVersion};
use debian_version::{DebianVersion, Epoch};

fn parse(s: &str) -> DebianVersion {
    DebianVersion::parse(s).unwrap()
}

fn cmp(a: &str, b: &str) -> Ordering {
    parse(a).compare(&parse(b))
}

#[test]
fn empty() {
    let parsed = "".parse::<DebianVersion>();
    let expected_error = DebianVersionError::Empty;
    let actual_error = parsed.unwrap_err();

    assert_eq!(actual_error, expected_error);
}

#[test]
fn only_dashes() {
    let parsed = "---".parse::<DebianVersion>();
    let expected_error = DebianVersionError::UpstreamStartWithDigit;
    let actual_error = parsed.unwrap_err();

    assert_eq!(actual_error, expected_error);
}

#[test]
fn valid_version() {
    let version = "5.10.104-tegra-35.2.1-20230124153320";
    let parsed = version.parse::<DebianVersion>();

    assert_eq!(
        parsed,
        Ok(DebianVersion {
            epoch: None,
            upstream_version: String::from("5.10.104-tegra-35.2.1"),
            debian_revision: Some("20230124153320".to_string()),
        }),
    )
}

#[test]
fn cmp_versions() {
    let parsed1 = DebianVersion::from_str("5.10.104-tegra-35.2.1-20230124153320");
    let parsed2 = DebianVersion::from_str("5.10.104-tegra-35.3.1-20230124153320");
    assert!(parsed1.is_ok());
    assert!(parsed2.is_ok());
    assert_eq!(parsed1.unwrap().compare(&parsed2.unwrap()), Ordering::Less);
}

#[test]
fn check_parser() {
    let version = "5.10.104-tegra-35.2.1-20230124153320";
    let parsed = DebianVersion::parse(version);
    println!("{:?}", parsed);
    assert!(parsed.is_ok());
}

#[test]
fn epoch_separator_without_rest_is_empty() {
    assert_eq!(DebianVersion::parse("5:"), Err(DebianVersionError::Empty));
}

#[test]
fn epoch_upstream_and_revision() {
    let v = parse("5:1.0-1");
    assert_eq!(
        v,
        DebianVersion {
            epoch: Some(5),
            upstream_version: "1.0".to_string(),
            debian_revision: Some("1".to_string()),
        }
    );
    assert_eq!(v.compare(&parse("1.0-1")), Ordering::Greater);
}

#[test]
fn revisions_ordered_numerically() {
    assert_eq!(cmp("1.0-1", "1.0-2"), Ordering::Less);
    assert_eq!(cmp("1.0-2", "1.0-1"), Ordering::Greater);
}

#[test]
fn tilde_sorts_before_everything() {
    assert_eq!(cmp("1.0~rc1", "1.0"), Ordering::Less);
    assert_eq!(cmp("1.0~~", "1.0~rc1"), Ordering::Less);
    assert_eq!(cmp("1.0", "1.0a"), Ordering::Less);
    assert_eq!(cmp("1.0a", "1.0+"), Ordering::Less);
}

#[test]
fn digit_runs_compare_by_value() {
    assert_eq!(cmp("1.2.9", "1.2.10"), Ordering::Less);
    assert_eq!(cmp("1.01", "1.1"), Ordering::Equal);
    assert_eq!(cmp("1.99999999999999999999999", "1.100000000000000000000000"), Ordering::Less);
    assert_eq!(cmp("1.100000000000000000000000", "1.099999999999999999999999"), Ordering::Greater);
}

#[test]
fn epoch_dominates() {
    assert_eq!(cmp("1:1.0-1", "0:9.9-9"), Ordering::Greater);
    assert_eq!(cmp("1:1.0-1", "1.0-1"), Ordering::Greater);
    assert_eq!(cmp("1:1.0-1", "0:1.0-1"), Ordering::Greater);
    assert_eq!(cmp("0:1.0-1", "1.0-1"), Ordering::Equal);
}

#[test]
fn missing_revision_counts_as_empty() {
    assert_eq!(cmp("1.0", "1.0-0"), Ordering::Equal);
    assert_eq!(cmp("1.0", "1.0-1"), Ordering::Less);
}

#[test]
fn order_is_reflexive_and_antisymmetric() {
    let vs = ["1.0", "1.0~rc1", "2:0.1", "1.0-1", "1.0+b1", "1.0a", "1.0.0"];
    for a in vs.iter() {
        assert_eq!(cmp(a, a), Ordering::Equal);
        for b in vs.iter() {
            assert_eq!(cmp(a, b), cmp(b, a).reverse());
        }
    }
}

#[test]
fn order_is_transitive() {
    let vs = ["1.0~~", "1.0~rc1", "1.0", "1.0-1", "1.0a", "1.0.1", "1:0.1"];
    for i in 0..vs.len() {
        for j in i + 1..vs.len() {
            assert_eq!(cmp(vs[i], vs[j]), Ordering::Less);
        }
    }
}

#[test]
fn text_round_trip() {
    for s in ["5:1.0-1", "1.0", "5.10.104-tegra-35.2.1-20230124153320", "1.0~rc1+dfsg-2ubuntu1"] {
        let v = parse(s);
        assert_eq!(v.version(), s);
        assert_eq!(parse(&v.version()), v);
    }
    let v = parse("007:1.0");
    assert_eq!(v.version(), "7:1.0");
    assert_eq!(v.compare(&parse(&v.version())), Ordering::Equal);
    assert_eq!(parse("0:1.0").version(), "0:1.0");
    assert_eq!(parse("1234567890:1.0").version(), "1234567890:1.0");
}

#[test]
fn each_error_kind() {
    assert_eq!(DebianVersion::parse("a:1.0"), Err(DebianVersionError::InvalidEpoch));
    assert_eq!(DebianVersion::parse(":1.0"), Err(DebianVersionError::InvalidEpoch));
    assert_eq!(DebianVersion::parse("+1:1.0"), Err(DebianVersionError::InvalidEpoch));
    assert_eq!(
        DebianVersion::parse("99999999999999999999999:1.0"),
        Err(DebianVersionError::InvalidEpoch)
    );
    assert_eq!(DebianVersion::parse("1:-1"), Err(DebianVersionError::EmptyUpstream));
    assert_eq!(DebianVersion::parse("a1.0"), Err(DebianVersionError::UpstreamStartWithDigit));
    assert_eq!(DebianVersion::parse("1.0_1"), Err(DebianVersionError::UpstreamInvalidCharacters));
    assert_eq!(DebianVersion::parse("1.0_1-1"), Err(DebianVersionError::UpstreamInvalidCharacters));
    assert_eq!(DebianVersion::parse("1.0-"), Err(DebianVersionError::EmptyRevision));
    assert_eq!(DebianVersion::parse("1.0-a_b"), Err(DebianVersionError::RevisionInvalidCharacters));
}

#[test]
fn colon_in_upstream_after_epoch() {
    let v = parse("1:2:3-4");
    assert_eq!(v.epoch(), Some(1));
    assert_eq!(v.upstream_version(), "2:3");
    assert_eq!(v.debian_revision(), &Some("4".to_string()));
}

#[test]
fn error_messages() {
    assert_eq!(DebianVersionError::Empty.message(), "Version is empty.");
    assert_eq!(DebianVersionError::InvalidEpoch.message(), "Epochs must be numeric.");
}

#[test]
fn epoch_prefix() {
    assert_eq!(Epoch::from_str("12:1.0"), Ok(Epoch(12)));
    assert_eq!(Epoch::from_str("12"), Err(DebianVersionError::InvalidEpoch));
    assert_eq!(Epoch::from_str(""), Err(DebianVersionError::InvalidEpoch));
    assert_eq!(Epoch::from_str("x:1"), Err(DebianVersionError::InvalidEpoch));
}

#[test]
fn validators() {
    assert_eq!("1.0-a".validate_with_revision(), Ok(true));
    assert_eq!("1.0-a".validate_without_revision(), Err(DebianVersionError::UpstreamInvalidCharacters));
    assert_eq!("".validate_without_revision(), Err(DebianVersionError::EmptyUpstream));
    assert_eq!(String::from("x1").validate_with_revision(), Err(DebianVersionError::UpstreamStartWithDigit));
    assert_eq!("1ubuntu2".validate(), Ok(true));
    assert_eq!("".validate(), Err(DebianVersionError::EmptyRevision));
    assert_eq!(String::from("a-b").validate(), Err(DebianVersionError::RevisionInvalidCharacters));
    assert!(only_valid_chars("1.0+b~1:2"));
    assert!(!only_valid_chars("1-0"));
}

#[test]
fn segments_compare_on_characters() {
    let a: Vec<char> = "1.2.9".chars().collect();
    let b: Vec<char> = "1.2.10".chars().collect();
    assert_eq!(compare_segments(&a, &b), Ordering::Less);
    assert_eq!(compare_segments(&Vec::new(), &Vec::new()), Ordering::Equal);
}

#[test]
fn mutators_revalidate() {
    let mut v = parse("1:1.0-1");
    if let Some(e) = v.mut_epoch() {
        *e = 2;
    }
    assert_eq!(v.version(), "2:1.0-1");

    assert_eq!(v.mut_upstream_version("2.0-rc"), Ok(()));
    assert_eq!(v.version(), "2:2.0-rc-1");
    assert_eq!(v.mut_upstream_version("x"), Err(DebianVersionError::UpstreamStartWithDigit));
    assert_eq!(v.version(), "2:2.0-rc-1");

    assert_eq!(v.mut_debian_revision(None), Err(DebianVersionError::UpstreamInvalidCharacters));
    assert_eq!(v.version(), "2:2.0-rc-1");
    assert_eq!(v.mut_debian_revision(Some("3")), Ok(()));
    assert_eq!(v.version(), "2:2.0-rc-3");

    assert_eq!(v.map_upstream_version_with(|s| s + "+dfsg"), Ok(()));
    assert_eq!(v.upstream_version(), "2.0-rc+dfsg");
    assert_eq!(v.map_debian_revision_with(|s| s + "ubuntu1"), Ok(()));
    assert_eq!(v.debian_revision(), &Some("3ubuntu1".to_string()));
    assert_eq!(v.map_debian_revision_with(|_| String::new()), Err(DebianVersionError::EmptyRevision));
    assert_eq!(v.debian_revision(), &Some("3ubuntu1".to_string()));

    let mut w = parse("1.0");
    assert_eq!(w.mut_epoch(), None);
    assert_eq!(w.map_debian_revision_with(|s| s + "x"), Ok(()));
    assert_eq!(w.version(), "1.0");
}

#[test]
fn from_parts_checks_components() {
    assert_eq!(DebianVersion::from_parts(Some(3), "1.0-a", Some("2")).map(|v| v.version()), Ok("3:1.0-a-2".to_string()));
    assert_eq!(DebianVersion::from_parts(None, "1.0-a", None), Err(DebianVersionError::UpstreamInvalidCharacters));
    assert_eq!(DebianVersion::from_parts(None, "1.0", Some("")), Err(DebianVersionError::EmptyRevision));
}
