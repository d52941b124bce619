use vstd::prelude::*;
use crate::text::{
    all_digits, chars_of, digits_value, lower, lower_chars, parse_digits, str_eq, string_of,
};

verus! {

/// A release date in seconds since the Unix epoch, recorded for one version.
pub struct ReleaseDate {
    pub version: String,
    pub date: Option<i64>,
}

/// What the dataset knows of one browser.
pub struct BrowserStat {
    pub name: String,
    /// Every known version, oldest first.
    pub versions: Vec<String>,
    /// The versions that have been released, oldest first.
    pub released: Vec<String>,
    /// Release dates, by version.
    pub release_date: Vec<ReleaseDate>,
}

/// Global usage share of one browser version, in millionths of a percent.
pub struct UsageEntry {
    pub name: String,
    pub version: String,
    pub usage: u64,
}

/// Another name for a version of one browser (`"tp"` for Safari's preview).
pub struct VersionAlias {
    pub browser: String,
    pub alias: String,
    pub version: String,
}

/// The Chromium version that one Electron version ships.
pub struct ElectronRelease {
    pub electron: String,
    pub chrome: String,
}

pub ghost struct StatView {
    pub name: Seq<char>,
    pub versions: Seq<Seq<char>>,
    pub released: Seq<Seq<char>>,
    pub release_date: Seq<(Seq<char>, Option<i64>)>,
}

pub open spec fn strs(v: Seq<String>) -> Seq<Seq<char>> {
    v.map_values(|s: String| s@)
}

impl View for ReleaseDate {
    type V = (Seq<char>, Option<i64>);

    open spec fn view(&self) -> (Seq<char>, Option<i64>) {
        (self.version@, self.date)
    }
}

impl View for BrowserStat {
    type V = StatView;

    open spec fn view(&self) -> StatView {
        StatView {
            name: self.name@,
            versions: strs(self.versions@),
            released: strs(self.released@),
            release_date: self.release_date@.map_values(|d: ReleaseDate| d@),
        }
    }
}

impl View for UsageEntry {
    type V = (Seq<char>, Seq<char>, u64);

    open spec fn view(&self) -> (Seq<char>, Seq<char>, u64) {
        (self.name@, self.version@, self.usage)
    }
}

impl View for VersionAlias {
    type V = (Seq<char>, Seq<char>, Seq<char>);

    open spec fn view(&self) -> (Seq<char>, Seq<char>, Seq<char>) {
        (self.browser@, self.alias@, self.version@)
    }
}

impl View for ElectronRelease {
    type V = (Seq<char>, Seq<char>);

    open spec fn view(&self) -> (Seq<char>, Seq<char>) {
        (self.electron@, self.chrome@)
    }
}

/// The bundled datasets, with the two desktop-equivalent stats derived from
/// them.
pub struct Data {
    pub browsers: Vec<BrowserStat>,
    /// Sorted by usage, most used first.
    pub usage: Vec<UsageEntry>,
    pub version_aliases: Vec<VersionAlias>,
    /// Oldest Electron release first.
    pub electron: Vec<ElectronRelease>,
    /// The Firefox versions with extended support.
    pub firefox_esr: Vec<String>,
    /// Android with Chrome's release history, see [`Data::new`].
    pub android_desktop: Option<BrowserStat>,
    /// Opera with its `10.0-10.1` bucket renamed `10`, see [`Data::new`].
    pub opera_mobile_desktop: Option<BrowserStat>,
}

pub ghost struct DataView {
    pub browsers: Seq<StatView>,
    pub usage: Seq<(Seq<char>, Seq<char>, u64)>,
    pub version_aliases: Seq<(Seq<char>, Seq<char>, Seq<char>)>,
    pub electron: Seq<(Seq<char>, Seq<char>)>,
    pub firefox_esr: Seq<Seq<char>>,
    pub android_desktop: Option<StatView>,
    pub opera_mobile_desktop: Option<StatView>,
}

pub open spec fn stat_views(v: Seq<BrowserStat>) -> Seq<StatView> {
    v.map_values(|b: BrowserStat| b@)
}

pub open spec fn opt_view(o: Option<BrowserStat>) -> Option<StatView> {
    match o {
        Some(b) => Some(b@),
        None => None,
    }
}

impl View for Data {
    type V = DataView;

    open spec fn view(&self) -> DataView {
        DataView {
            browsers: stat_views(self.browsers@),
            usage: self.usage@.map_values(|u: UsageEntry| u@),
            version_aliases: self.version_aliases@.map_values(|a: VersionAlias| a@),
            electron: self.electron@.map_values(|e: ElectronRelease| e@),
            firefox_esr: strs(self.firefox_esr@),
            android_desktop: opt_view(self.android_desktop),
            opera_mobile_desktop: opt_view(self.opera_mobile_desktop),
        }
    }
}

/// The first version of Android's browser that follows Chrome's releases.
pub const ANDROID_EVERGREEN_FIRST: u64 = 37;

/// Index of the first browser called `name`.
pub open spec fn find_stat(bs: Seq<StatView>, name: Seq<char>) -> Option<int>
    decreases bs.len(),
{
    if bs.len() == 0 {
        None
    } else {
        match find_stat(bs.drop_last(), name) {
            Some(i) => Some(i),
            None => if bs.last().name == name {
                Some(bs.len() - 1)
            } else {
                None
            },
        }
    }
}

pub open spec fn stat_named(bs: Seq<StatView>, name: Seq<char>) -> Option<StatView> {
    match find_stat(bs, name) {
        Some(i) => Some(bs[i]),
        None => None,
    }
}

pub proof fn lemma_find_stat(bs: Seq<StatView>, name: Seq<char>)
    ensures
        match find_stat(bs, name) {
            Some(i) => 0 <= i < bs.len() && bs[i].name == name && forall|j: int|
                0 <= j < i ==> #[trigger] bs[j].name != name,
            None => forall|j: int| 0 <= j < bs.len() ==> #[trigger] bs[j].name != name,
        },
    decreases bs.len(),
{
    if bs.len() > 0 {
        let d = bs.drop_last();
        lemma_find_stat(d, name);
        assert forall|j: int| 0 <= j < d.len() implies #[trigger] bs[j].name == d[j].name by {}
    }
}

/// Finds the stat of the browser called `name`.
pub fn find_browser<'a>(bs: &'a Vec<BrowserStat>, name: &Vec<char>) -> (r: Option<&'a BrowserStat>)
    ensures
        match find_stat(stat_views(bs@), name@) {
            Some(i) => r == Some(&bs@[i]),
            None => r.is_none(),
        },
{
    proof {
        lemma_find_stat(stat_views(bs@), name@);
    }
    let key = string_of(name);
    let mut i: usize = 0;
    while i < bs.len()
        invariant
            i <= bs@.len(),
            key@ == name@,
            forall|j: int| 0 <= j < i ==> #[trigger] bs@[j].name@ != name@,
        decreases bs@.len() - i,
    {
        if bs[i].name == key {
            proof {
                let v = stat_views(bs@);
                lemma_find_stat(v, name@);
                assert(v[i as int].name == name@);
                match find_stat(v, name@) {
                    Some(k) => {
                        if k < i {
                            assert(v[k].name == bs@[k].name@);
                        }
                        if k > i {
                            assert(v[i as int].name != name@);
                        }
                    },
                    None => {
                        assert(v[i as int].name != name@);
                    },
                }
            }
            return Some(&bs[i]);
        }
        i = i + 1;
    }
    proof {
        let v = stat_views(bs@);
        lemma_find_stat(v, name@);
        match find_stat(v, name@) {
            Some(k) => {
                assert(v[k].name == bs@[k].name@);
            },
            None => {},
        }
    }
    None
}

/// The canonical dataset key for a colloquial browser name.
pub open spec fn alias_of(name: Seq<char>) -> Seq<char> {
    if name == "fx"@ || name == "ff"@ {
        "firefox"@
    } else if name == "ios"@ {
        "ios_saf"@
    } else if name == "explorer"@ {
        "ie"@
    } else if name == "blackberry"@ {
        "bb"@
    } else if name == "explorermobile"@ {
        "ie_mob"@
    } else if name == "operamini"@ {
        "op_mini"@
    } else if name == "operamobile"@ {
        "op_mob"@
    } else if name == "chromeandroid"@ {
        "and_chr"@
    } else if name == "firefoxandroid"@ {
        "and_ff"@
    } else if name == "ucandroid"@ {
        "and_uc"@
    } else if name == "qqandroid"@ {
        "and_qq"@
    } else {
        name
    }
}

/// Resolves a colloquial browser name to its dataset key.
pub fn get_browser_alias<'a>(name: &'a str) -> (r: &'a str)
    ensures
        r@ == alias_of(name@),
{
    if str_eq(name, "fx") || str_eq(name, "ff") {
        "firefox"
    } else if str_eq(name, "ios") {
        "ios_saf"
    } else if str_eq(name, "explorer") {
        "ie"
    } else if str_eq(name, "blackberry") {
        "bb"
    } else if str_eq(name, "explorermobile") {
        "ie_mob"
    } else if str_eq(name, "operamini") {
        "op_mini"
    } else if str_eq(name, "operamobile") {
        "op_mob"
    } else if str_eq(name, "chromeandroid") {
        "and_chr"
    } else if str_eq(name, "firefoxandroid") {
        "and_ff"
    } else if str_eq(name, "ucandroid") {
        "and_uc"
    } else if str_eq(name, "qqandroid") {
        "and_qq"
    } else {
        name
    }
}

/// The desktop browser whose history stands for a mobile one.
pub open spec fn desktop_of(name: Seq<char>) -> Option<Seq<char>> {
    if name == "and_chr"@ || name == "android"@ {
        Some("chrome"@)
    } else if name == "and_ff"@ {
        Some("firefox"@)
    } else if name == "ie_mob"@ {
        Some("ie"@)
    } else if name == "op_mob"@ {
        Some("opera"@)
    } else {
        None
    }
}

/// The desktop equivalent of a mobile browser, if it has one.
pub fn to_desktop_name(name: &str) -> (r: Option<&'static str>)
    ensures
        match r {
            Some(d) => desktop_of(name@) == Some(d@),
            None => desktop_of(name@).is_none(),
        },
{
    if str_eq(name, "and_chr") || str_eq(name, "android") {
        Some("chrome")
    } else if str_eq(name, "and_ff") {
        Some("firefox")
    } else if str_eq(name, "ie_mob") {
        Some("ie")
    } else if str_eq(name, "op_mob") {
        Some("opera")
    } else {
        None
    }
}

/// The canonical name and the stat that a browser name designates: the name
/// is lowercased and resolved through [`alias_of`]; with `mobile_to_desktop`
/// a mobile browser gets the history of its desktop equivalent.
pub open spec fn lookup(d: DataView, name: Seq<char>, mobile_to_desktop: bool) -> Option<(Seq<char>, StatView)> {
    let n = alias_of(lower(name));
    let stat = if mobile_to_desktop && desktop_of(n).is_some() {
        if n == "android"@ {
            d.android_desktop
        } else if n == "op_mob"@ {
            d.opera_mobile_desktop
        } else {
            stat_named(d.browsers, desktop_of(n).unwrap())
        }
    } else {
        stat_named(d.browsers, n)
    };
    match stat {
        Some(st) => Some((n, st)),
        None => None,
    }
}

/// Looks a browser up by a possibly colloquial name.
pub fn get_browser_stat<'a>(name: &str, mobile_to_desktop: bool, data: &'a Data) -> (r: Option<(String, &'a BrowserStat)>)
    ensures
        match r {
            Some((n, st)) => lookup(data@, name@, mobile_to_desktop) == Some((n@, st@)),
            None => lookup(data@, name@, mobile_to_desktop).is_none(),
        },
{
    let lowered = string_of(&lower_chars(&chars_of(name)));
    let canonical = get_browser_alias(lowered.as_str());
    let key = chars_of(canonical);
    let ghost n = alias_of(lower(name@));
    assert(key@ == n);
    let stat: Option<&'a BrowserStat> = if mobile_to_desktop {
        match to_desktop_name(canonical) {
            Some(desktop) => {
                if str_eq(canonical, "android") {
                    match &data.android_desktop {
                        Some(st) => Some(st),
                        None => None,
                    }
                } else if str_eq(canonical, "op_mob") {
                    match &data.opera_mobile_desktop {
                        Some(st) => Some(st),
                        None => None,
                    }
                } else {
                    let dk = chars_of(desktop);
                    let found = find_browser(&data.browsers, &dk);
                    found
                }
            },
            None => find_browser(&data.browsers, &key),
        }
    } else {
        find_browser(&data.browsers, &key)
    };
    proof {
        let v = stat_views(data.browsers@);
        lemma_find_stat(v, n);
        match find_stat(v, n) {
            Some(i) => {
                assert(v[i] == data.browsers@[i]@);
            },
            None => {},
        }
        match desktop_of(n) {
            Some(dn) => {
                lemma_find_stat(v, dn);
                match find_stat(v, dn) {
                    Some(i) => {
                        assert(v[i] == data.browsers@[i]@);
                    },
                    None => {},
                }
            },
            None => {},
        }
    }
    match stat {
        Some(st) => Some((string_of(&key), st)),
        None => None,
    }
}

/// An Android version from before Android's browser followed Chrome.
pub open spec fn non_desktop_android(v: Seq<char>) -> bool {
    (v.len() >= 2 && '2' <= v[0] && v[0] <= '4' && v[1] == '.') || v == seq!['3'] || v == seq!['4']
}

/// Where Chrome's history starts to stand for Android: the newest Chrome
/// version minus the evergreen cutoff (none of it where that version is
/// beyond any count).
pub open spec fn chrome_tail_start(vs: Seq<Seq<char>>) -> int {
    if vs.len() > 0 && vs.last().len() > 0 && all_digits(vs.last()) && digits_value(vs.last()) > u64::MAX {
        vs.len() as int
    } else if vs.len() > 0 && vs.last().len() > 0 && all_digits(vs.last()) && digits_value(vs.last()) >= 37 {
        let k = digits_value(vs.last()) - 37;
        if k <= vs.len() {
            k
        } else {
            vs.len() as int
        }
    } else {
        0
    }
}

pub open spec fn android_desktop_of(android: StatView, chrome: StatView) -> StatView {
    StatView {
        name: android.name,
        versions: android.versions.filter(|v: Seq<char>| non_desktop_android(v)) + chrome.versions.skip(
            chrome_tail_start(chrome.versions),
        ),
        released: android.released.filter(|v: Seq<char>| non_desktop_android(v)) + chrome.released.skip(
            chrome_tail_start(chrome.released),
        ),
        release_date: android.release_date,
    }
}

pub open spec fn renamed(v: Seq<char>) -> Seq<char> {
    if v == "10.0-10.1"@ {
        "10"@
    } else {
        v
    }
}

pub open spec fn opera_mobile_desktop_of(opera: StatView) -> StatView {
    StatView {
        name: opera.name,
        versions: opera.versions.map_values(|v: Seq<char>| renamed(v)),
        released: opera.released.map_values(|v: Seq<char>| renamed(v)),
        release_date: opera.release_date.map_values(|e: (Seq<char>, Option<i64>)| (renamed(e.0), e.1)),
    }
}

fn non_desktop_android_exec(v: &String) -> (r: bool)
    ensures
        r == non_desktop_android(v@),
{
    let cs = chars_of(v.as_str());
    let r = (cs.len() >= 2 && '2' <= cs[0] && cs[0] <= '4' && cs[1] == '.') || (cs.len() == 1 && (cs[0] == '3'
        || cs[0] == '4'));
    proof {
        if cs@.len() == 1 && cs@[0] == '3' {
            assert(cs@ =~= seq!['3']);
        }
        if cs@.len() == 1 && cs@[0] == '4' {
            assert(cs@ =~= seq!['4']);
        }
    }
    r
}

fn filter_android(v: &Vec<String>) -> (r: Vec<String>)
    ensures
        strs(r@) == strs(v@).filter(|x: Seq<char>| non_desktop_android(x)),
{
    let ghost all = strs(v@);
    let ghost p = |x: Seq<char>| non_desktop_android(x);
    let mut out: Vec<String> = Vec::new();
    let mut i: usize = 0;
    while i < v.len()
        invariant
            all == strs(v@),
            p == (|x: Seq<char>| non_desktop_android(x)),
            i <= v@.len(),
            strs(out@) == all.subrange(0, i as int).filter(p),
        decreases v@.len() - i,
    {
        proof {
            let t = all.subrange(0, i + 1);
            assert(t.drop_last() =~= all.subrange(0, i as int));
            assert(t.last() == v@[i as int]@);
            reveal(Seq::filter);
        }
        if non_desktop_android_exec(&v[i]) {
            let ghost before = out@;
            let x = v[i].clone();
            out.push(x);
            proof {
                assert(strs(out@) =~= strs(before).push(x@));
            }
        }
        i = i + 1;
    }
    proof {
        assert(all.subrange(0, all.len() as int) =~= all);
    }
    out
}

fn append_chrome_tail(out: &mut Vec<String>, v: &Vec<String>)
    ensures
        strs(final(out)@) == strs(old(out)@) + strs(v@).skip(chrome_tail_start(strs(v@))),
{
    let ghost all = strs(v@);
    let mut start: usize = 0;
    if v.len() > 0 {
        let last = chars_of(v[v.len() - 1].as_str());
        proof {
            assert(all.last() == last@);
        }
        if last.len() > 0 && crate::text::all_digits_exec(&last) {
            match parse_digits(&last) {
                Some(n) => {
                    if n >= ANDROID_EVERGREEN_FIRST {
                        let k = n - ANDROID_EVERGREEN_FIRST;
                        start = if k <= v.len() as u64 {
                            k as usize
                        } else {
                            v.len()
                        };
                    }
                },
                None => {
                    start = v.len();
                },
            }
        }
    }
    proof {
        if all.len() > 0 && all.last().len() > 0 && all_digits(all.last()) {
            crate::text::lemma_digits_value_nonneg(all.last());
        }
    }
    assert(start == chrome_tail_start(all));
    let ghost base = strs(out@);
    let mut i: usize = start;
    while i < v.len()
        invariant
            all == strs(v@),
            start <= i <= v@.len(),
            strs(out@) == base + all.subrange(start as int, i as int),
        decreases v@.len() - i,
    {
        let ghost before = out@;
        let x = v[i].clone();
        out.push(x);
        proof {
            assert(strs(out@) =~= strs(before).push(x@));
            assert(all.subrange(start as int, i + 1) =~= all.subrange(start as int, i as int).push(all[i as int]));
        }
        i = i + 1;
    }
    proof {
        assert(all.subrange(start as int, all.len() as int) =~= all.skip(start as int));
    }
}

fn renamed_exec(v: &String) -> (r: String)
    ensures
        r@ == renamed(v@),
{
    if str_eq(v.as_str(), "10.0-10.1") {
        "10".to_owned()
    } else {
        v.clone()
    }
}

fn rename_all(v: &Vec<String>) -> (r: Vec<String>)
    ensures
        strs(r@) == strs(v@).map_values(|x: Seq<char>| renamed(x)),
{
    let mut out: Vec<String> = Vec::new();
    let mut i: usize = 0;
    while i < v.len()
        invariant
            i <= v@.len(),
            strs(out@) == strs(v@).subrange(0, i as int).map_values(|x: Seq<char>| renamed(x)),
        decreases v@.len() - i,
    {
        let ghost before = out@;
        let x = renamed_exec(&v[i]);
        out.push(x);
        proof {
            assert(strs(out@) =~= strs(before).push(x@));
            assert(strs(v@).subrange(0, i + 1).map_values(|x: Seq<char>| renamed(x)) =~= strs(v@).subrange(0, i as int).map_values(
                |x: Seq<char>| renamed(x),
            ).push(renamed(v@[i as int]@)));
        }
        i = i + 1;
    }
    proof {
        assert(strs(v@).subrange(0, v@.len() as int) =~= strs(v@));
    }
    out
}

pub open spec fn date_views(v: Seq<ReleaseDate>) -> Seq<(Seq<char>, Option<i64>)> {
    v.map_values(|d: ReleaseDate| d@)
}

fn copy_dates(v: &Vec<ReleaseDate>, rename: bool) -> (r: Vec<ReleaseDate>)
    ensures
        date_views(r@) == (if rename {
            date_views(v@).map_values(|e: (Seq<char>, Option<i64>)| (renamed(e.0), e.1))
        } else {
            date_views(v@)
        }),
{
    let ghost want = if rename {
        date_views(v@).map_values(|e: (Seq<char>, Option<i64>)| (renamed(e.0), e.1))
    } else {
        date_views(v@)
    };
    let mut out: Vec<ReleaseDate> = Vec::new();
    let mut i: usize = 0;
    while i < v.len()
        invariant
            want.len() == v@.len(),
            want == (if rename {
                date_views(v@).map_values(|e: (Seq<char>, Option<i64>)| (renamed(e.0), e.1))
            } else {
                date_views(v@)
            }),
            i <= v@.len(),
            date_views(out@) == want.subrange(0, i as int),
        decreases v@.len() - i,
    {
        let version = if rename {
            renamed_exec(&v[i].version)
        } else {
            v[i].version.clone()
        };
        let e = ReleaseDate { version, date: v[i].date };
        let ghost before = out@;
        out.push(e);
        proof {
            assert(date_views(out@) =~= date_views(before).push(e@));
            assert(want[i as int] == e@);
            assert(want.subrange(0, i + 1) =~= want.subrange(0, i as int).push(e@));
        }
        i = i + 1;
    }
    proof {
        assert(want.subrange(0, v@.len() as int) =~= want);
    }
    out
}

fn android_desktop_exec(android: &BrowserStat, chrome: &BrowserStat) -> (r: BrowserStat)
    ensures
        r@ == android_desktop_of(android@, chrome@),
{
    let mut versions = filter_android(&android.versions);
    append_chrome_tail(&mut versions, &chrome.versions);
    let mut released = filter_android(&android.released);
    append_chrome_tail(&mut released, &chrome.released);
    let r = BrowserStat {
        name: android.name.clone(),
        versions,
        released,
        release_date: copy_dates(&android.release_date, false),
    };
    proof {
        assert(r@.release_date == android@.release_date);
    }
    r
}

fn opera_mobile_desktop_exec(opera: &BrowserStat) -> (r: BrowserStat)
    ensures
        r@ == opera_mobile_desktop_of(opera@),
{
    let r = BrowserStat {
        name: opera.name.clone(),
        versions: rename_all(&opera.versions),
        released: rename_all(&opera.released),
        release_date: copy_dates(&opera.release_date, true),
    };
    proof {
        assert(r@.release_date == date_views(r.release_date@));
    }
    r
}

/// No two browsers share a name.
pub open spec fn names_unique(bs: Seq<StatView>) -> bool {
    forall|i: int, j: int| 0 <= i < j < bs.len() ==> bs[i].name != bs[j].name
}

/// No version has two release-date entries.
pub open spec fn dates_unique(st: StatView) -> bool {
    forall|i: int, j: int| 0 <= i < j < st.release_date.len() ==> st.release_date[i].0 != st.release_date[j].0
}

/// The usage table runs from the most used entry to the least used.
pub open spec fn usage_sorted(us: Seq<(Seq<char>, Seq<char>, u64)>) -> bool {
    forall|i: int, j: int| 0 <= i < j < us.len() ==> us[i].2 >= us[j].2
}

/// No browser has two entries for one alias.
pub open spec fn aliases_unique(al: Seq<(Seq<char>, Seq<char>, Seq<char>)>) -> bool {
    forall|i: int, j: int| 0 <= i < j < al.len() ==> !(al[i].0 == al[j].0 && al[i].1 == al[j].1)
}

/// Android's desktop-equivalent stat, derived from the browser table.
pub open spec fn derived_android(bs: Seq<StatView>) -> Option<StatView> {
    match (stat_named(bs, "android"@), stat_named(bs, "chrome"@)) {
        (Some(a), Some(c)) => Some(android_desktop_of(a, c)),
        _ => None,
    }
}

/// Opera Mobile's desktop-equivalent stat, derived from the browser table.
pub open spec fn derived_opera_mobile(bs: Seq<StatView>) -> Option<StatView> {
    match stat_named(bs, "opera"@) {
        Some(o) => Some(opera_mobile_desktop_of(o)),
        None => None,
    }
}

impl Data {
    /// The datasets are consistent: the tables have the keys of maps, usage is
    /// sorted, and the desktop-equivalent stats are those derived from the
    /// browser table.
    pub open spec fn wf(&self) -> bool {
        &&& names_unique(self@.browsers)
        &&& forall|i: int| 0 <= i < self@.browsers.len() ==> dates_unique(#[trigger] self@.browsers[i])
        &&& usage_sorted(self@.usage)
        &&& aliases_unique(self@.version_aliases)
        &&& self@.android_desktop == derived_android(self@.browsers)
        &&& self@.opera_mobile_desktop == derived_opera_mobile(self@.browsers)
    }

    /// Gathers the datasets and derives the desktop-equivalent stats of
    /// Android (from Android's and Chrome's) and of Opera Mobile (from
    /// Opera's).
    pub fn new(
        browsers: Vec<BrowserStat>,
        usage: Vec<UsageEntry>,
        version_aliases: Vec<VersionAlias>,
        electron: Vec<ElectronRelease>,
        firefox_esr: Vec<String>,
    ) -> (r: Data)
        requires
            names_unique(stat_views(browsers@)),
            forall|i: int| 0 <= i < browsers@.len() ==> dates_unique(#[trigger] browsers@[i]@),
            usage_sorted(usage@.map_values(|u: UsageEntry| u@)),
            aliases_unique(version_aliases@.map_values(|a: VersionAlias| a@)),
        ensures
            r.wf(),
            r.browsers@ == browsers@,
            r.usage@ == usage@,
            r.version_aliases@ == version_aliases@,
            r.electron@ == electron@,
            r.firefox_esr@ == firefox_esr@,
    {
        let ghost bv = stat_views(browsers@);
        proof {
            lemma_find_stat(bv, "android"@);
            lemma_find_stat(bv, "chrome"@);
            lemma_find_stat(bv, "opera"@);
        }
        let android_desktop = match (
            find_browser(&browsers, &chars_of("android")),
            find_browser(&browsers, &chars_of("chrome")),
        ) {
            (Some(a), Some(c)) => Some(android_desktop_exec(a, c)),
            _ => None,
        };
        let opera_mobile_desktop = match find_browser(&browsers, &chars_of("opera")) {
            Some(o) => Some(opera_mobile_desktop_exec(o)),
            None => None,
        };
        proof {
            match find_stat(bv, "android"@) {
                Some(i) => {
                    assert(bv[i] == browsers@[i]@);
                },
                None => {},
            }
            match find_stat(bv, "chrome"@) {
                Some(i) => {
                    assert(bv[i] == browsers@[i]@);
                },
                None => {},
            }
            match find_stat(bv, "opera"@) {
                Some(i) => {
                    assert(bv[i] == browsers@[i]@);
                },
                None => {},
            }
        }
        let r = Data { browsers, usage, version_aliases, electron, firefox_esr, android_desktop, opera_mobile_desktop };
        proof {
            assert forall|i: int| 0 <= i < r@.browsers.len() implies dates_unique(#[trigger] r@.browsers[i]) by {
                assert(r@.browsers[i] == r.browsers@[i]@);
            }
        }
        r
    }
}

} // verus!
