use browserslist::{
    count_android_filter, get_browser_alias, parse, query, resolve, semver_compare, semver_loose_compare,
    should_filter_android, to_desktop_name, BrowserStat, Data, Distrib, ElectronRelease, Error, Opts, ReleaseDate,
    UsageEntry, VersionAlias,
};
use std::cmp::Ordering;

fn strings(items: &[&str]) -> Vec<String> {
    items.iter().map(|s| s.to_string()).collect()
}

fn stat(name: &str, versions: &[&str], dates: &[(&str, Option<i64>)]) -> BrowserStat {
    BrowserStat {
        name: name.to_string(),
        versions: strings(versions),
        released: strings(versions),
        release_date: dates.iter().map(|(v, d)| ReleaseDate { version: v.to_string(), date: *d }).collect(),
    }
}

fn usage(name: &str, version: &str, micro: u64) -> UsageEntry {
    UsageEntry { name: name.to_string(), version: version.to_string(), usage: micro }
}

fn sample() -> Data {
    let browsers = vec![
        stat(
            "android",
            &["2.1", "2.2", "2.3", "3", "4", "4.4", "4.4.3-4.4.4", "40"],
            &[("4.4", Some(1_383_000_000)), ("40", Some(1_430_000_000))],
        ),
        stat("baidu", &["7.12"], &[]),
        stat("bb", &["7", "10"], &[]),
        stat("chrome", &["36", "37", "38", "39", "40"], &[
            ("36", Some(1_405_000_000)),
            ("37", Some(1_409_000_000)),
            ("38", Some(1_412_000_000)),
            ("39", Some(1_416_000_000)),
            ("40", Some(1_421_000_000)),
        ]),
        stat("firefox", &["2", "3", "50", "51", "52"], &[("2", None), ("52", Some(1_488_000_000))]),
        stat("ie", &["5.5", "6", "7", "8", "9", "10", "11"], &[
            ("5.5", Some(962_000_000)),
            ("6", Some(998_000_000)),
            ("11", Some(1_381_000_000)),
        ]),
        stat("ie_mob", &["10", "11"], &[]),
        stat("ios_saf", &["12.2", "13.0", "13.1", "14.0", "14.1"], &[]),
        stat("op_mob", &["10", "12", "12.1"], &[]),
        stat("opera", &["9", "10.0-10.1", "11"], &[("10.0-10.1", Some(1_260_000_000))]),
        stat("samsung", &["4", "5.0-5.4"], &[]),
        stat("safari", &["13", "14", "TP"], &[]),
    ];
    let usage_table = vec![
        usage("chrome", "40", 50_000_000),
        usage("firefox", "52", 30_000_000),
        usage("ie", "11", 20_000_000),
        usage("ie", "10", 0),
    ];
    let aliases = vec![VersionAlias {
        browser: "safari".to_string(),
        alias: "tp".to_string(),
        version: "TP".to_string(),
    }];
    let electron = vec![
        ElectronRelease { electron: "1.0".to_string(), chrome: "49".to_string() },
        ElectronRelease { electron: "1.1".to_string(), chrome: "50".to_string() },
        ElectronRelease { electron: "2.0".to_string(), chrome: "61".to_string() },
    ];
    Data::new(browsers, usage_table, aliases, electron, strings(&["52"]))
}

fn rendered(queries: &[&str], opts: &Opts) -> Result<Vec<String>, Error> {
    resolve(&strings(queries), opts, &sample()).map(|v| v.iter().map(|d| d.to_string()).collect())
}

#[test]
fn mobile_to_desktop() {
    let opts = Opts::new().mobile_to_desktop(true);
    assert_eq!(
        rendered(&["last 2 android major versions"], &opts),
        Ok(strings(&["android 40", "android 39"]))
    );
}

#[test]
fn major_versions_group_minor_releases() {
    assert_eq!(
        rendered(&["last 2 ios major versions"], &Opts::new()),
        Ok(strings(&["ios_saf 14.1", "ios_saf 14.0", "ios_saf 13.1", "ios_saf 13.0"]))
    );
    assert_eq!(rendered(&["last 1 iOS major version"], &Opts::new()), Ok(strings(&["ios_saf 14.1", "ios_saf 14.0"])));
    assert_eq!(rendered(&["last 2 yuru major versions"], &Opts::new()), Err(Error::BrowserNotFound("yuru".to_string())));
}

#[test]
fn android_major_versions_without_mapping() {
    assert_eq!(rendered(&["last 2 android major versions"], &Opts::new()), Ok(strings(&["android 40"])));
}

#[test]
fn ie_up_to_six() {
    assert_eq!(rendered(&["ie <= 6"], &Opts::new()), Ok(strings(&["ie 6", "ie 5.5"])));
    let d = resolve(&strings(&["ie <= 6"]), &Opts::new(), &sample()).unwrap();
    assert_eq!(d[0].name(), "ie");
    assert_eq!(d[0].version(), "6");
    assert_eq!(d[1].version(), "5.5");
}

#[test]
fn unknown_browser() {
    assert_eq!(rendered(&["yuru 1.0"], &Opts::new()), Err(Error::BrowserNotFound("yuru".to_string())));
}

#[test]
fn cover_includes_entry_that_crosses() {
    assert_eq!(rendered(&["cover 60%"], &Opts::new()), Ok(strings(&["chrome 40", "firefox 52"])));
    assert_eq!(rendered(&["cover 80%"], &Opts::new()), Ok(strings(&["chrome 40", "firefox 52"])));
    assert_eq!(rendered(&["cover 100%"], &Opts::new()), Ok(strings(&["chrome 40", "firefox 52", "ie 11"])));
    assert_eq!(rendered(&["cover 100.5%"], &Opts::new()), Ok(strings(&["chrome 40", "firefox 52", "ie 11"])));
    assert_eq!(rendered(&["cover 50%"], &Opts::new()), Ok(strings(&["chrome 40"])));
}

#[test]
fn comparator_puts_bigger_first() {
    assert_eq!(semver_compare("10", "9"), Ordering::Less);
    assert_eq!(semver_compare("9", "10"), Ordering::Greater);
    assert_eq!(semver_compare("10.1", "10.1"), Ordering::Equal);
    assert_eq!(semver_compare("10", "10.1"), Ordering::Equal);
    assert_eq!(semver_compare("1.2", "1.10"), Ordering::Greater);
    assert_eq!(semver_compare("all", "1"), Ordering::Greater);
    assert_eq!(semver_loose_compare("1.2.9", "1.2.3"), Ordering::Equal);
    assert_eq!(semver_loose_compare("1.3.0", "1.2.3"), Ordering::Less);
}

#[test]
fn since_epoch_takes_every_dated_version() {
    assert_eq!(
        rendered(&["since 1970"], &Opts::new()),
        Ok(strings(&[
            "android 40",
            "android 4.4",
            "chrome 40",
            "chrome 39",
            "chrome 38",
            "chrome 37",
            "chrome 36",
            "firefox 52",
            "ie 11",
            "ie 6",
            "ie 5.5",
            "opera 10.0-10.1",
        ]))
    );
}

#[test]
fn since_date_with_month_and_day() {
    assert_eq!(rendered(&["since 2014-09-01"], &Opts::new()), Ok(strings(&[
        "android 40",
        "chrome 40",
        "chrome 39",
        "chrome 38",
        "firefox 52",
    ])));
    assert_eq!(rendered(&["Since 2017"], &Opts::new()), Ok(strings(&["firefox 52"])));
}

#[test]
fn since_rejects_missing_day() {
    assert_eq!(rendered(&["since 2017-02-30"], &Opts::new()), Err(Error::InvalidDate("2017-02-30".to_string())));
    assert_eq!(rendered(&["since 2017-13"], &Opts::new()), Err(Error::InvalidDate("2017-13".to_string())));
}

#[test]
fn not_removes_what_was_added() {
    assert_eq!(rendered(&["ie <= 6", "not ie <= 6"], &Opts::new()), Ok(vec![]));
    assert_eq!(rendered(&["ie <= 7, not ie <= 6"], &Opts::new()), Ok(strings(&["ie 7"])));
}

#[test]
fn and_keeps_common_entries() {
    assert_eq!(rendered(&["ie >= 8 and ie <= 10"], &Opts::new()), Ok(strings(&["ie 10", "ie 9", "ie 8"])));
    assert_eq!(rendered(&["ie <= 10 and ie >= 8"], &Opts::new()), Ok(strings(&["ie 10", "ie 9", "ie 8"])));
}

#[test]
fn repeated_query_adds_nothing() {
    assert_eq!(rendered(&["ie <= 6", "ie <= 6"], &Opts::new()), rendered(&["ie <= 6"], &Opts::new()));
    assert_eq!(rendered(&["ie <= 6 or ie <= 6"], &Opts::new()), Ok(strings(&["ie 6", "ie 5.5"])));
}

#[test]
fn last_versions_of_each_browser() {
    assert_eq!(
        rendered(&["last 1 version"], &Opts::new()),
        Ok(strings(&[
            "android 40",
            "baidu 7.12",
            "bb 10",
            "chrome 40",
            "firefox 52",
            "ie 11",
            "ie_mob 11",
            "ios_saf 14.1",
            "op_mob 12.1",
            "opera 11",
            "safari TP",
            "samsung 5.0-5.4",
        ]))
    );
}

#[test]
fn percentages() {
    assert_eq!(rendered(&["> 25%"], &Opts::new()), Ok(strings(&["chrome 40", "firefox 52"])));
    assert_eq!(rendered(&[">=20%"], &Opts::new()), Ok(strings(&["chrome 40", "firefox 52", "ie 11"])));
    assert_eq!(rendered(&["< 20%"], &Opts::new()), Ok(strings(&["ie 10"])));
    assert_eq!(rendered(&["<= 20%"], &Opts::new()), Ok(strings(&["ie 11", "ie 10"])));
}

#[test]
fn errors_for_numbers_that_do_not_fit() {
    assert_eq!(
        rendered(&["last 99999999999999999999 versions"], &Opts::new()),
        Err(Error::ParseVersionsCount("99999999999999999999".to_string()))
    );
    assert_eq!(
        rendered(&["> 99999999999999999999%"], &Opts::new()),
        Err(Error::ParsePercentage("99999999999999999999".to_string()))
    );
}

#[test]
fn bare_browser_and_nonsense() {
    assert_eq!(rendered(&["ie"], &Opts::new()), Err(Error::VersionRequired("ie".to_string())));
    assert_eq!(rendered(&["Explorer"], &Opts::new()), Err(Error::VersionRequired("Explorer".to_string())));
    assert_eq!(rendered(&["foo bar baz"], &Opts::new()), Err(Error::UnknownQuery("foo bar baz".to_string())));
    assert_eq!(rendered(&["ie 12"], &Opts::new()), Err(Error::UnknownQuery("ie 12".to_string())));
}

#[test]
fn firefox_esr_and_electron() {
    assert_eq!(rendered(&["Firefox ESR"], &Opts::new()), Ok(strings(&["firefox 52"])));
    assert_eq!(rendered(&["last 2 electron versions"], &Opts::new()), Ok(strings(&["chrome 61", "chrome 50"])));
}

#[test]
fn electron_range() {
    assert_eq!(rendered(&["electron 1.0-1.1"], &Opts::new()), Ok(strings(&["chrome 50", "chrome 49"])));
    assert_eq!(rendered(&["Electron 1.1.0 - 2.0"], &Opts::new()), Ok(strings(&["chrome 61", "chrome 50"])));
    assert_eq!(rendered(&["electron 3.0-4.0"], &Opts::new()), Ok(vec![]));
}

#[test]
fn version_alias_and_accurate() {
    assert_eq!(rendered(&["safari tp"], &Opts::new()), Ok(strings(&["safari TP"])));
    assert_eq!(rendered(&["fx 51"], &Opts::new()), Ok(strings(&["firefox 51"])));
}

#[test]
fn dead_and_defaults() {
    assert_eq!(
        rendered(&["dead"], &Opts::new()),
        Ok(strings(&[
            "baidu 7.12",
            "bb 10",
            "bb 7",
            "ie 11",
            "ie 10",
            "ie 9",
            "ie 8",
            "ie 7",
            "ie 6",
            "ie 5.5",
            "ie_mob 11",
            "ie_mob 10",
            "op_mob 12",
            "op_mob 12.1",
            "op_mob 10",
            "samsung 4",
        ]))
    );
    assert_eq!(
        rendered(&["defaults"], &Opts::new()),
        Ok(strings(&["android 40", "chrome 40", "chrome 39", "firefox 52", "firefox 51", "ios_saf 14.1", "ios_saf 14.0", "opera 11", "opera 10.0-10.1", "safari 14", "safari TP", "samsung 5.0-5.4"]))
    );
}

#[test]
fn opera_mobile_to_desktop() {
    let opts = Opts::new().mobile_to_desktop(true);
    assert_eq!(rendered(&["op_mob >= 10"], &opts), Ok(strings(&["op_mob 11", "op_mob 10"])));
    assert_eq!(rendered(&["and_chr >= 39"], &opts), Ok(strings(&["and_chr 40", "and_chr 39"])));
}

#[test]
fn aliases_and_desktop_names() {
    assert_eq!(get_browser_alias("fx"), "firefox");
    assert_eq!(get_browser_alias("explorer"), "ie");
    assert_eq!(get_browser_alias("chrome"), "chrome");
    assert_eq!(to_desktop_name("and_chr"), Some("chrome"));
    assert_eq!(to_desktop_name("android"), Some("chrome"));
    assert_eq!(to_desktop_name("chrome"), None);
}

#[test]
fn android_count() {
    assert!(should_filter_android("android", false));
    assert!(!should_filter_android("android", true));
    assert!(!should_filter_android("ios_saf", false));
    let data = sample();
    assert_eq!(count_android_filter(1, false, &data), 1);
    assert_eq!(count_android_filter(3, false, &data), 1);
    assert_eq!(count_android_filter(5, false, &data), 3);
}

#[test]
fn distrib_rendering() {
    assert_eq!(Distrib::new("firefox", "93").to_string(), "firefox 93");
    assert_eq!(Distrib::new("op_mini", "all").name(), "op_mini");
    assert_eq!(Distrib::new("node", "16.0.0").version(), "16.0.0");
}

#[test]
fn single_clause_query() {
    let d = query("ie <= 6", &Opts::new(), &sample()).unwrap();
    assert_eq!(d.iter().map(|x| x.to_string()).collect::<Vec<_>>(), strings(&["ie 5.5", "ie 6"]));
}

#[test]
fn parser_tags_clauses() {
    let cs = parse("a and b or c, not d");
    assert_eq!(cs.len(), 4);
    assert!(!cs[0].and);
    assert!(cs[1].and);
    assert!(!cs[2].and);
    assert!(!cs[3].and);
    assert_eq!(cs[3].words.len(), 2);
}

fn small() -> Data {
    let a = BrowserStat {
        name: "a".to_string(),
        versions: strings(&["10", "10.1", "10.2", "11"]),
        released: strings(&["10", "10.1", "10.2"]),
        release_date: vec![],
    };
    Data::new(vec![a], vec![], vec![], vec![], vec![])
}

fn rendered_small(queries: &[&str]) -> Result<Vec<String>, Error> {
    resolve(&strings(queries), &Opts::new(), &small()).map(|v| v.iter().map(|d| d.to_string()).collect())
}

#[test]
fn comparator_drops_prerelease_suffix() {
    assert_eq!(semver_compare("10-beta", "9"), Ordering::Less);
    assert_eq!(semver_compare("9", "10-beta"), Ordering::Greater);
    assert_eq!(semver_compare("4.4.3-4.4.4", "4.4.3"), Ordering::Equal);
    assert_eq!(semver_loose_compare("10.2-rc", "10.1"), Ordering::Less);
}

#[test]
fn comparator_reads_signed_segments() {
    assert_eq!(semver_compare("+5", "4"), Ordering::Less);
    assert_eq!(semver_compare("+5.+1", "5.1"), Ordering::Equal);
    assert_eq!(semver_compare("1.-1", "1.0"), Ordering::Equal);
    assert_eq!(semver_compare("x", "0"), Ordering::Equal);
}

#[test]
fn every_duplicate_is_removed() {
    let once = rendered_small(&["last 3 versions"]);
    assert_eq!(once, Ok(strings(&["a 10.2", "a 10.1", "a 10"])));
    assert_eq!(rendered_small(&["last 3 versions", "last 3 versions"]), once);
    assert_eq!(rendered_small(&["last 3 versions, last 3 versions"]), once);
}

#[test]
fn unreleased_versions() {
    assert_eq!(rendered_small(&["unreleased versions"]), Ok(strings(&["a 11"])));
    assert_eq!(rendered_small(&["Unreleased A versions"]), Ok(strings(&["a 11"])));
    assert_eq!(rendered_small(&["unreleased b versions"]), Err(Error::BrowserNotFound("b".to_string())));
}

#[test]
fn last_versions_of_one_browser() {
    assert_eq!(rendered(&["last 2 ie versions"], &Opts::new()), Ok(strings(&["ie 11", "ie 10"])));
    assert_eq!(rendered(&["last 1 Explorer version"], &Opts::new()), Ok(strings(&["ie 11"])));
    assert_eq!(rendered(&["last 2 yuru versions"], &Opts::new()), Err(Error::BrowserNotFound("yuru".to_string())));
}
