//! A restore point as its manifest in a registry describes it.
//!
//! The manifest is a pointer: the index names the layers and the place of every entry in them. So
//! what is read here is how the point is addressed, and what it declares about itself.

use crate::app::{
    annotation, annotation_or_empty, value_of, value_or_empty, Descriptor, ImageManifest,
    ManifestDocument,
};
use crate::encryption::{
    declaration, declaration_message, declared, plain, plain_media_type, sealed_under, Encryption,
};
use crate::error::{is_operational, CliError};
use crate::persist::restore::{RestoreError, RestorePoint};
use crate::persist::tree::LayerRef;
use crate::text::{
    alnum, cat2, cat3, cat5, chars_of, debug_quoted, decimal, digit_char, find, find_any_from,
    is_alnum, owned,
    parse_number, parse_signed, parsed_i64, parsed_u64, pieces, position, position_any, quoted,
    rfind, rposition, same, slice_of, split, string_of, strip_end, strip_start, stripped_end,
    stripped_start, views,
};
use vstd::prelude::*;

verus! {

/// `artifactType` of the manifest that publishes a restore point.
pub const RESTORE_POINT_ARTIFACT_TYPE: &'static str =
    "application/vnd.orc.appdata.restore-point.v1";

/// Media type of the point's index.
pub const RESTORE_POINT_CONFIG_MEDIA_TYPE: &'static str =
    "application/vnd.orc.appdata.restore-point.config.v1+json";

/// Media type of a layer of app data.
pub const APPDATA_LAYER_MEDIA_TYPE: &'static str = "application/vnd.orc.appdata.layer.v1+zstd";

/// The point's id.
pub const ANNOTATION_POINT: &'static str = "org.orc8r.appdata.point";

pub const ANNOTATION_POOL: &'static str = "org.orc8r.appdata.pool";

pub const ANNOTATION_SLOT: &'static str = "org.orc8r.appdata.slot";

pub const ANNOTATION_NODE: &'static str = "org.orc8r.appdata.node";

pub const ANNOTATION_APP: &'static str = "org.orc8r.appdata.app";

pub const ANNOTATION_KIND: &'static str = "org.orc8r.appdata.kind";

pub const ANNOTATION_FILES: &'static str = "org.orc8r.appdata.files";

pub const ANNOTATION_BYTES: &'static str = "org.orc8r.appdata.bytes";

pub const ANNOTATION_CREATED: &'static str = "org.opencontainers.image.created";

/// The canonical tag that the point is published under.
pub const ANNOTATION_REF_NAME: &'static str = "org.opencontainers.image.ref.name";

/// One restore point as its manifest describes it.
#[derive(Debug, PartialEq, Eq)]
pub struct ResolvedPoint {
    /// Digest of the manifest.
    pub digest: String,
    /// What the decoders need.
    pub point: RestorePoint,
    /// How the content is encrypted.
    pub encryption: Encryption,
    /// The layers, in the order in which the manifest lists them.
    pub layers: Vec<LayerRef>,
    /// The canonical tag, or else the reference that was asked for.
    pub ref_name: String,
    /// When the point was created, as the manifest writes it.
    pub created: String,
    pub pool: String,
    pub slot: Option<u64>,
    pub node: String,
    pub kind: String,
}

/// The sizes of some layers, added up.
pub open spec fn sizes(layers: Seq<LayerRef>) -> int
    decreases layers.len(),
{
    if layers.len() == 0 {
        0
    } else {
        sizes(layers.drop_last()) + layers.last().size
    }
}

proof fn lemma_sizes_grow(layers: Seq<LayerRef>, i: int)
    requires
        0 <= i <= layers.len(),
    ensures
        0 <= sizes(layers.take(i)) <= sizes(layers),
    decreases layers.len() - i,
{
    if i == layers.len() {
        assert(layers.take(i) =~= layers);
        lemma_sizes_positive(layers);
    } else {
        lemma_sizes_grow(layers, i + 1);
        assert(layers.take(i + 1).drop_last() =~= layers.take(i));
        lemma_sizes_positive(layers.take(i));
    }
}

proof fn lemma_sizes_positive(layers: Seq<LayerRef>)
    ensures
        0 <= sizes(layers),
    decreases layers.len(),
{
    if layers.len() > 0 {
        lemma_sizes_positive(layers.drop_last());
    }
}

impl ResolvedPoint {
    /// The bytes that the point takes in the registry: what a download transfers.
    pub fn transfer_bytes(&self) -> (r: u64)
        requires
            sizes(self.layers@) + self.point.index.size <= u64::MAX,
        ensures
            r == sizes(self.layers@) + self.point.index.size,
    {
        let mut total: u64 = 0;
        assert(self.layers@.take(0) =~= Seq::<LayerRef>::empty());
        for i in 0..self.layers.len()
            invariant
                total == sizes(self.layers@.take(i as int)),
                sizes(self.layers@) + self.point.index.size <= u64::MAX,
        {
            proof {
                lemma_sizes_grow(self.layers@, i + 1);
                assert(self.layers@.take(i + 1).drop_last() =~= self.layers@.take(i as int));
            }
            total = total + self.layers[i].size;
        }
        assert(self.layers@.take(self.layers@.len() as int) =~= self.layers@);
        total + self.point.index.size
    }

    /// A name for the point's output: its canonical tag as one safe path segment.
    pub fn output_name(&self) -> (r: String)
        ensures
            r@ == segment_of(self.ref_name@),
            is_safe_segment(r@),
    {
        safe_segment(self.ref_name.as_str())
    }
}

// ---------------------------------------------------------------------------
// Names
// ---------------------------------------------------------------------------

/// How long a path segment may be.
pub const MAX_SEGMENT: usize = 96;

/// Whether a character is kept behind some others: letters, digits, hyphens and underscores, and
/// a dot that does not follow a dot.
pub open spec fn keeps(before: Seq<char>, c: char) -> bool {
    ||| c == '-'
    ||| c == '_'
    ||| is_alnum(c)
    ||| c == '.' && !(before.len() > 0 && before.last() == '.')
}

/// What is kept of the first `n` characters of a name.
pub open spec fn kept(value: Seq<char>, n: int) -> Seq<char>
    decreases n,
{
    if n <= 0 {
        Seq::empty()
    } else {
        let before = kept(value, n - 1);
        if before.len() < MAX_SEGMENT && keeps(before, value[n - 1]) {
            before.push(value[n - 1])
        } else {
            before
        }
    }
}

/// A name as one path segment.
pub open spec fn segment_of(value: Seq<char>) -> Seq<char> {
    strip_end(strip_start(kept(value, value.len() as int), '.'), '.')
}

/// Whether a character may stand in a path segment.
pub open spec fn is_segment_char(c: char) -> bool {
    is_alnum(c) || c == '-' || c == '_' || c == '.'
}

/// Whether some characters may stand in a path segment, no dot behind a dot.
pub open spec fn is_segment_text(s: Seq<char>) -> bool {
    &&& s.len() <= MAX_SEGMENT
    &&& forall|i: int| 0 <= i < s.len() ==> is_segment_char(#[trigger] s[i])
    &&& forall|i: int| 0 <= i < s.len() - 1 && #[trigger] s[i] == '.' ==> s[i + 1] != '.'
}

/// Whether a text is one path segment that leads nowhere else: it is short, holds letters, digits,
/// hyphens, underscores and single dots, and neither begins nor ends with a dot.
pub open spec fn is_safe_segment(s: Seq<char>) -> bool {
    &&& is_segment_text(s)
    &&& s.len() > 0 ==> s.first() != '.' && s.last() != '.'
}

proof fn lemma_kept(value: Seq<char>, n: int)
    requires
        0 <= n <= value.len(),
    ensures
        is_segment_text(kept(value, n)),
    decreases n,
{
    if n > 0 {
        lemma_kept(value, n - 1);
        let before = kept(value, n - 1);
        let after = kept(value, n);
        if before.len() < MAX_SEGMENT && keeps(before, value[n - 1]) {
            assert forall|i: int| 0 <= i < after.len() - 1 && #[trigger] after[i]
                == '.' implies after[i + 1] != '.' by {
                assert(after[i] == before[i]);
                if i + 1 < before.len() {
                    assert(after[i + 1] == before[i + 1]);
                }
            }
        }
    }
}

proof fn lemma_strip_start(s: Seq<char>)
    requires
        is_segment_text(s),
    ensures
        is_segment_text(strip_start(s, '.')),
        strip_start(s, '.').len() > 0 ==> strip_start(s, '.').first() != '.',
    decreases s.len(),
{
    if s.len() > 0 && s.first() == '.' {
        let t = s.drop_first();
        assert forall|i: int| 0 <= i < t.len() implies is_segment_char(#[trigger] t[i]) by {
            assert(t[i] == s[i + 1]);
        }
        assert forall|i: int| 0 <= i < t.len() - 1 && #[trigger] t[i] == '.' implies t[i + 1]
            != '.' by {
            assert(t[i] == s[i + 1]);
        }
        lemma_strip_start(t);
    }
}

proof fn lemma_strip_end(s: Seq<char>)
    requires
        is_segment_text(s),
        s.len() > 0 ==> s.first() != '.',
    ensures
        is_safe_segment(strip_end(s, '.')),
    decreases s.len(),
{
    if s.len() > 0 && s.last() == '.' {
        let t = s.drop_last();
        assert forall|i: int| 0 <= i < t.len() implies is_segment_char(#[trigger] t[i]) by {
            assert(t[i] == s[i]);
        }
        assert forall|i: int| 0 <= i < t.len() - 1 && #[trigger] t[i] == '.' implies t[i + 1]
            != '.' by {
            assert(t[i] == s[i]);
        }
        lemma_strip_end(t);
    }
}

/// One path segment from a name that came over the network. What may not stand in one is dropped.
pub fn safe_segment(value: &str) -> (r: String)
    ensures
        r@ == segment_of(value@),
        is_safe_segment(r@),
{
    let chars = chars_of(value);
    let mut out: Vec<char> = Vec::new();
    for i in 0..chars.len()
        invariant
            chars@ == value@,
            out@ == kept(value@, i as int),
            out@.len() <= MAX_SEGMENT,
    {
        let c = chars[i];
        let keep: bool = if c == '.' {
            out.len() == 0 || out[out.len() - 1] != '.'
        } else {
            c == '-' || c == '_' || alnum(c)
        };
        if out.len() < MAX_SEGMENT && keep {
            out.push(c);
        }
    }
    proof {
        let k = kept(value@, value@.len() as int);
        lemma_kept(value@, value@.len() as int);
        lemma_strip_start(k);
        lemma_strip_end(strip_start(k, '.'));
    }
    string_of(&stripped_end(&stripped_start(&out, '.'), '.'))
}

proof fn lemma_all_kept(s: Seq<char>, n: int)
    requires
        is_segment_text(s),
        0 <= n <= s.len(),
    ensures
        kept(s, n) == s.take(n),
    decreases n,
{
    if n > 0 {
        lemma_all_kept(s, n - 1);
        assert(is_segment_char(s[n - 1]));
        if n > 1 {
            assert(s.take(n - 1).last() == s[n - 2]);
            assert(s[n - 2] == '.' ==> s[n - 2 + 1] != '.');
        }
        assert(s.take(n) =~= s.take(n - 1).push(s[n - 1]));
    } else {
        assert(s.take(0) =~= Seq::<char>::empty());
    }
}

/// A safe segment is left as it is, so making a name safe again changes nothing.
pub proof fn law_a_safe_segment_stays_as_it_is(s: Seq<char>, value: Seq<char>)
    ensures
        is_safe_segment(s) ==> segment_of(s) == s,
        segment_of(segment_of(value)) == segment_of(value),
{
    let k = kept(value, value.len() as int);
    lemma_kept(value, value.len() as int);
    lemma_strip_start(k);
    lemma_strip_end(strip_start(k, '.'));
    assert forall|t: Seq<char>| #[trigger] is_safe_segment(t) implies segment_of(t) == t by {
        lemma_all_kept(t, t.len() as int);
        assert(t.take(t.len() as int) =~= t);
    }
    assert(is_safe_segment(segment_of(value)));
}

/// A text, or another one where it is empty.
pub open spec fn or_else(s: Seq<char>, other: Seq<char>) -> Seq<char> {
    if s.len() == 0 {
        other
    } else {
        s
    }
}

/// The name that a point is built under: nothing in it leads out of the directory.
pub fn staging_name(point: &RestorePoint) -> (r: String)
    ensures
        r@ == or_else(segment_of(point.app@), "app"@) + "-"@ + or_else(
            segment_of(point.id@),
            "point"@,
        ),
        forall|i: int| 0 <= i < r@.len() ==> is_segment_char(#[trigger] r@[i]),
        r@.first() != '.',
        r@.last() != '.',
        forall|i: int| 0 <= i < r@.len() - 1 && #[trigger] r@[i] == '.' ==> r@[i + 1] != '.',
{
    let app = safe_segment(point.app.as_str());
    let id = safe_segment(point.id.as_str());
    proof {
        reveal_strlit("app");
        reveal_strlit("point");
        reveal_strlit("-");
    }
    let app: String = if app.as_str().is_empty() {
        owned("app")
    } else {
        app
    };
    let id: String = if id.as_str().is_empty() {
        owned("point")
    } else {
        id
    };
    let r = cat3(app.as_str(), "-", id.as_str());
    proof {
        let n = app@.len() as int;
        assert forall|i: int| 0 <= i < r@.len() implies is_segment_char(#[trigger] r@[i]) by {
            if i < n {
                assert(r@[i] == app@[i]);
            } else if i > n {
                assert(r@[i] == id@[i - n - 1]);
            }
        }
        assert(r@.first() == app@[0]);
        assert(r@.last() == id@[id@.len() - 1]);
        assert forall|i: int| 0 <= i < r@.len() - 1 && #[trigger] r@[i] == '.' implies r@[i + 1]
            != '.' by {
            if i < n - 1 {
                assert(r@[i] == app@[i] && r@[i + 1] == app@[i + 1]);
            } else if i == n - 1 {
                assert(r@[i] == app@[i]);
            } else if i > n {
                assert(r@[i] == id@[i - n - 1] && r@[i + 1] == id@[i - n]);
            }
        }
    }
    r
}

/// A path without what does not belong to its last segment: slashes and single dots at its end.
pub open spec fn without_tail(path: Seq<char>) -> Seq<char>
    decreases path.len(),
{
    if path.len() > 0 && path.last() == '/' {
        without_tail(path.drop_last())
    } else if path.len() > 1 && path.last() == '.' && path[path.len() - 2] == '/' {
        without_tail(path.drop_last())
    } else {
        path
    }
}

fn cut_tail(path: &[char]) -> (r: usize)
    ensures
        r <= path@.len(),
        path@.take(r as int) == without_tail(path@),
{
    let mut n: usize = path.len();
    assert(path@.take(n as int) =~= path@);
    while n > 0 && (path[n - 1] == '/' || (n > 1 && path[n - 1] == '.' && path[n - 2] == '/'))
        invariant
            n <= path@.len() == path.len(),
            without_tail(path@) == without_tail(path@.take(n as int)),
        decreases n,
    {
        assert(path@.take(n as int).drop_last() =~= path@.take(n - 1));
        n -= 1;
    }
    n
}

/// The directory that a path is in, with the slash behind it, and the path's last segment.
pub open spec fn dir_and_name(path: Seq<char>) -> (Seq<char>, Seq<char>) {
    let base = without_tail(path);
    let cut = rfind(base, '/') + 1;
    (base.take(cut), base.skip(cut))
}

/// Whether a last segment names something in its directory.
pub open spec fn is_name(s: Seq<char>) -> bool {
    s != ""@ && s != "."@ && s != ".."@
}

fn split_path(path: &str) -> (r: (Vec<char>, Vec<char>))
    ensures
        (r.0@, r.1@) == dir_and_name(path@),
{
    let chars = chars_of(path);
    let n = cut_tail(&chars);
    let base = slice_of(&chars, 0, n);
    assert(base@ =~= without_tail(path@));
    let cut: usize = match rposition(&base, '/') {
        Some(i) => i + 1,
        None => 0,
    };
    let dir = slice_of(&base, 0, cut);
    let name = slice_of(&base, cut, base.len());
    assert(dir@ =~= base@.take(cut as int));
    assert(name@ =~= base@.skip(cut as int));
    (dir, name)
}

/// The name that an archive is written under until it is complete, in the same directory.
pub fn partial_path(dest: &str) -> (r: String)
    ensures
        ({
            let (dir, name) = dir_and_name(dest@);
            r@ == dir + if is_name(name) {
                name
            } else {
                Seq::empty()
            } + ".partial"@
        }),
{
    let (dir, name) = split_path(dest);
    let name = string_of(&name);
    let last: String = if same(name.as_str(), "") || same(name.as_str(), ".") || same(
        name.as_str(),
        "..",
    ) {
        String::new()
    } else {
        name
    };
    assert(last@ =~= if is_name(dir_and_name(dest@).1) {
        dir_and_name(dest@).1
    } else {
        Seq::empty()
    });
    cat3(string_of(&dir).as_str(), last.as_str(), ".partial")
}

/// The directory that a destination is in.
pub open spec fn parent_of(path: Seq<char>) -> Seq<char> {
    let dir = dir_and_name(path).0;
    let bare = strip_end(dir, '/');
    if dir.len() == 0 {
        "."@
    } else if bare.len() == 0 {
        "/"@
    } else {
        bare
    }
}

/// The directory that a destination is in.
pub fn parent_path(dest: &str) -> (r: String)
    ensures
        r@ == parent_of(dest@),
{
    let (dir, _) = split_path(dest);
    let bare = stripped_end(&dir, '/');
    if dir.len() == 0 {
        owned(".")
    } else if bare.len() == 0 {
        owned("/")
    } else {
        string_of(&bare)
    }
}

/// What has to go before something is written to a destination.
#[derive(Debug, Clone, Copy, PartialEq, Eq, Structural)]
pub enum Clearing {
    Nothing,
    RemoveTree,
    RemoveFile,
}

/// What is cleared from a destination before it is written to, or nothing if it is not to be.
pub open spec fn cleared(present: bool, is_directory: bool, force: bool) -> Option<Clearing> {
    if !present {
        Some(Clearing::Nothing)
    } else if !force {
        None
    } else if is_directory {
        Some(Clearing::RemoveTree)
    } else {
        Some(Clearing::RemoveFile)
    }
}

/// Claims a destination: what is already there is refused, unless it is to be replaced.
pub fn claim_destination(dest: &str, present: bool, is_directory: bool, force: bool) -> (r: Result<
    Clearing,
    RestoreError,
>)
    ensures
        match r {
            Ok(clearing) => cleared(present, is_directory, force) == Some(clearing),
            Err(e) => cleared(present, is_directory, force) is None && (
            e matches RestoreError::Io { message, exists: true } && message@ == dest@
                + " already exists; use --force to replace it"@),
        },
{
    if !present {
        Ok(Clearing::Nothing)
    } else if !force {
        Err(
            RestoreError::Io {
                message: cat2(dest, " already exists; use --force to replace it"),
                exists: true,
            },
        )
    } else if is_directory {
        Ok(Clearing::RemoveTree)
    } else {
        Ok(Clearing::RemoveFile)
    }
}

// ---------------------------------------------------------------------------
// Times
// ---------------------------------------------------------------------------

/// Whether a year of the Gregorian calendar has a leap day.
pub open spec fn is_leap(year: int) -> bool {
    year % 4 == 0 && (year % 100 != 0 || year % 400 == 0)
}

/// The number of days from the beginning of year 0 to the beginning of a year.
pub open spec fn days_before_year(year: int) -> int {
    365 * year + (year - 1) / 4 - (year - 1) / 100 + (year - 1) / 400
}

/// The number of days from the beginning of a year to the beginning of one of its months.
pub open spec fn days_before_month(year: int, month: int) -> int {
    let leap: int = if is_leap(year) {
        1
    } else {
        0
    };
    if month <= 1 {
        0
    } else if month == 2 {
        31
    } else if month == 3 {
        59 + leap
    } else if month == 4 {
        90 + leap
    } else if month == 5 {
        120 + leap
    } else if month == 6 {
        151 + leap
    } else if month == 7 {
        181 + leap
    } else if month == 8 {
        212 + leap
    } else if month == 9 {
        243 + leap
    } else if month == 10 {
        273 + leap
    } else if month == 11 {
        304 + leap
    } else {
        334 + leap
    }
}

/// The number of days from 1970-01-01 to a day of the Gregorian calendar.
pub open spec fn civil_days(year: int, month: int, day: int) -> int {
    days_before_year(year) + days_before_month(year, month) + day - 1 - days_before_year(1970)
}

/// The greatest integer that is no greater than the quotient.
fn floor_div(a: i128, b: i128) -> (r: i128)
    requires
        b > 0,
        a > i128::MIN,
    ensures
        r == a as int / b as int,
{
    if a >= 0 {
        a / b
    } else {
        let q: i128 = (-a - 1) / b;
        proof {
            let x = (-a - 1) as int;
            let d = b as int;
            vstd::arithmetic::div_mod::lemma_fundamental_div_mod(x, d);
            let m = x % d;
            assert(a == d * (-q - 1) + (d - 1 - m)) by (nonlinear_arith)
                requires
                    x == d * q + m,
                    x == -a - 1,
            ;
            vstd::arithmetic::div_mod::lemma_fundamental_div_mod_converse(
                a as int,
                d,
                -q - 1,
                d - 1 - m,
            );
            assert(q <= x) by (nonlinear_arith)
                requires
                    x == d * q + m,
                    m >= 0,
                    d >= 1,
                    q >= 0,
            ;
        }
        -q - 1
    }
}

/// The number of days from 1970-01-01 to a day of the Gregorian calendar: the year is taken to
/// begin in March, so that the leap day is its last.
pub fn days_from_civil(year: i64, month: i64, day: i64) -> (r: i128)
    requires
        1 <= month <= 12,
        1 <= day <= 31,
    ensures
        r == civil_days(year as int, month as int, day as int),
{
    let y: i128 = if month <= 2 {
        year as i128 - 1
    } else {
        year as i128
    };
    let era: i128 = floor_div(y, 400);
    let year_of_era: i128 = y - era * 400;
    let shifted: i128 = if month > 2 {
        month as i128 - 3
    } else {
        month as i128 + 9
    };
    let day_of_year: i128 = (153 * shifted + 2) / 5 + day as i128 - 1;
    let day_of_era: i128 = year_of_era * 365 + year_of_era / 4 - year_of_era / 100 + day_of_year;
    let r: i128 = era * 146_097 + day_of_era - 719_468;
    proof {
        lemma_civil(year as int, month as int, day as int, y as int, era as int, shifted as int);
    }
    r
}

proof fn lemma_civil(year: int, month: int, day: int, y: int, era: int, shifted: int)
    requires
        1 <= month <= 12,
        y == if month <= 2 {
            year - 1
        } else {
            year
        },
        era == y / 400,
        shifted == if month > 2 {
            month - 3
        } else {
            month + 9
        },
    ensures
        era * 146_097 + (y - era * 400) * 365 + (y - era * 400) / 4 - (y - era * 400) / 100 + (153
            * shifted + 2) / 5 + day - 1 - 719_468 == civil_days(year, month, day),
{
    let yoe = y - era * 400;
    assert(y / 4 == era * 100 + yoe / 4);
    assert(y / 100 == era * 4 + yoe / 100);
    assert(days_before_year(1970) == 719_527);
    lemma_leap(year);
}

proof fn lemma_leap(year: int)
    ensures
        days_before_year(year + 1) - days_before_year(year) == 365 + if is_leap(year) {
            1int
        } else {
            0int
        },
{
    let p = year - 1;
    assert(year / 4 - p / 4 == if year % 4 == 0 {
        1int
    } else {
        0int
    });
    assert(year / 100 - p / 100 == if year % 100 == 0 {
        1int
    } else {
        0int
    });
    assert(year / 400 - p / 400 == if year % 400 == 0 {
        1int
    } else {
        0int
    });
}

/// The year after a year begins as many days later as the year has.
pub proof fn law_years_follow_one_another(year: int)
    ensures
        civil_days(year + 1, 1, 1) - civil_days(year, 1, 1) == if is_leap(year) {
            366int
        } else {
            365int
        },
{
    lemma_leap(year);
}

/// A number, if the text writes one.
pub open spec fn piece_number(pieces: Seq<Seq<char>>, i: int) -> Option<int> {
    if i < pieces.len() {
        parse_signed(pieces[i])
    } else {
        None
    }
}

/// The seconds of a time of day; a time without seconds is a full minute.
pub open spec fn clock_seconds(time: Seq<char>) -> Option<int> {
    let clock = split(time, ':');
    let second = if clock.len() < 3 {
        Some(0int)
    } else {
        parse_signed(clock[2])
    };
    match (piece_number(clock, 0), piece_number(clock, 1), second) {
        (Some(h), Some(m), Some(s)) => Some(h * 3_600 + m * 60 + s),
        _ => None,
    }
}

/// The days from 1970-01-01 to a date.
pub open spec fn date_days(date: Seq<char>) -> Option<int> {
    let parts = split(date, '-');
    match (piece_number(parts, 0), piece_number(parts, 1), piece_number(parts, 2)) {
        (Some(y), Some(m), Some(d)) => if 1 <= m <= 12 && 1 <= d <= 31 {
            Some(civil_days(y, m, d))
        } else {
            None
        },
        _ => None,
    }
}

/// The number that two digits write, if both are digits.
pub open spec fn two_digits(s: Seq<char>, i: int) -> Option<int> {
    if '0' <= s[i] && s[i] <= '9' && '0' <= s[i + 1] && s[i + 1] <= '9' {
        Some((s[i] as int - '0' as int) * 10 + (s[i + 1] as int - '0' as int))
    } else {
        None
    }
}

/// How far a zone is ahead of universal time, in seconds: nothing and `Z` are universal time, and
/// a sign, two digits of hours, a colon and two digits of minutes are as far ahead or behind.
pub open spec fn zone_seconds(zone: Seq<char>) -> Option<int> {
    if zone.len() == 0 || zone[0] == 'Z' || zone[0] == 'z' {
        Some(0)
    } else if zone.len() != 6 || zone[3] != ':' {
        None
    } else {
        match (two_digits(zone, 1), two_digits(zone, 4)) {
            (Some(h), Some(m)) => if h > 23 || m > 59 {
                None
            } else if zone[0] == '-' {
                Some(-(h * 3_600 + m * 60))
            } else {
                Some(h * 3_600 + m * 60)
            },
            _ => None,
        }
    }
}

/// The seconds since the Unix epoch of a timestamp: a date and a time of day with a `T` or a blank
/// between them, and the zone that the time is told in. Fractions of a second are left out, and
/// what follows a `Z` is not looked at.
pub open spec fn timestamp(value: Seq<char>) -> Option<int> {
    let i = find_any_from(value, "Tt "@, 0);
    if !(0 <= i < value.len()) {
        None
    } else {
        let rest = value.skip(i + 1);
        let stop = find_any_from(rest, "Zz+-"@, 0);
        let zoned = rest.take(stop);
        let time = zoned.take(find(zoned, '.'));
        match (date_days(value.take(i)), clock_seconds(time), zone_seconds(rest.skip(stop))) {
            (Some(days), Some(seconds), Some(ahead)) => {
                let total = days * 86_400 + seconds - ahead;
                if i64::MIN <= total <= i64::MAX {
                    Some(total)
                } else {
                    None
                }
            },
            _ => None,
        }
    }
}

fn two_at(s: &[char], i: usize) -> (r: Option<i64>)
    requires
        i + 1 < s@.len(),
    ensures
        match r {
            Some(n) => two_digits(s@, i as int) == Some(n as int) && 0 <= n <= 99,
            None => two_digits(s@, i as int) is None,
        },
{
    let a: char = s[i];
    let b: char = s[i + 1];
    if '0' <= a && a <= '9' && '0' <= b && b <= '9' {
        Some((a as i64 - 48) * 10 + (b as i64 - 48))
    } else {
        None
    }
}

fn zone_of(zone: &[char]) -> (r: Option<i64>)
    ensures
        match r {
            Some(n) => zone_seconds(zone@) == Some(n as int) && -90_000 < n < 90_000,
            None => zone_seconds(zone@) is None,
        },
{
    if zone.len() == 0 || zone[0] == 'Z' || zone[0] == 'z' {
        return Some(0);
    }
    if zone.len() != 6 || zone[3] != ':' {
        return None;
    }
    match (two_at(zone, 1), two_at(zone, 4)) {
        (Some(h), Some(m)) => {
            if h > 23 || m > 59 {
                None
            } else if zone[0] == '-' {
                Some(-(h * 3_600 + m * 60))
            } else {
                Some(h * 3_600 + m * 60)
            }
        },
        _ => None,
    }
}

fn number_at(parts: &Vec<Vec<char>>, i: usize) -> (r: Option<i64>)
    ensures
        match r {
            Some(n) => piece_number(crate::text::char_views(parts@), i as int) == Some(n as int),
            None => piece_number(crate::text::char_views(parts@), i as int) is None,
        },
{
    if i < parts.len() {
        assert(crate::text::char_views(parts@)[i as int] == parts@[i as int]@);
        parsed_i64(&parts[i])
    } else {
        None
    }
}

fn days_of(date: &[char]) -> (r: Option<i128>)
    ensures
        match r {
            Some(days) => date_days(date@) == Some(days as int) && -4_000_000_000_000_000_000_000
                < days < 4_000_000_000_000_000_000_000,
            None => date_days(date@) is None,
        },
{
    let parts = pieces(date, '-');
    match (number_at(&parts, 0), number_at(&parts, 1), number_at(&parts, 2)) {
        (Some(year), Some(month), Some(day)) => {
            if month < 1 || month > 12 || day < 1 || day > 31 {
                return None;
            }
            Some(days_from_civil(year, month, day))
        },
        _ => None,
    }
}

fn seconds_of(time: &[char]) -> (r: Option<i128>)
    ensures
        match r {
            Some(seconds) => clock_seconds(time@) == Some(seconds as int)
                && -40_000_000_000_000_000_000_000_000 < seconds < 40_000_000_000_000_000_000_000_000,
            None => clock_seconds(time@) is None,
        },
{
    let clock = pieces(time, ':');
    let second: Option<i64> = if clock.len() < 3 {
        Some(0)
    } else {
        number_at(&clock, 2)
    };
    match (number_at(&clock, 0), number_at(&clock, 1), second) {
        (Some(h), Some(m), Some(s)) => Some(h as i128 * 3_600 + m as i128 * 60 + s as i128),
        _ => None,
    }
}

/// The seconds since the Unix epoch of a timestamp. One that does not parse, or whose seconds do
/// not fit, has no time.
pub fn epoch_seconds(value: &str) -> (r: Option<i64>)
    ensures
        match r {
            Some(n) => timestamp(value@) == Some(n as int),
            None => timestamp(value@) is None,
        },
{
    let chars = chars_of(value);
    match position_any(&chars, "Tt ") {
        None => None,
        Some(i) => {
            let date = slice_of(&chars, 0, i);
            let rest = slice_of(&chars, i + 1, chars.len());
            assert(date@ =~= value@.take(i as int));
            assert(rest@ =~= value@.skip(i + 1));
            let stop: usize = match position_any(&rest, "Zz+-") {
                Some(k) => k,
                None => rest.len(),
            };
            let zoned = slice_of(&rest, 0, stop);
            assert(zoned@ =~= rest@.take(stop as int));
            let point: usize = match position(&zoned, '.') {
                Some(k) => k,
                None => zoned.len(),
            };
            let time = slice_of(&zoned, 0, point);
            assert(time@ =~= zoned@.take(point as int));
            let zone = slice_of(&rest, stop, rest.len());
            assert(zone@ =~= rest@.skip(stop as int));
            match (days_of(&date), seconds_of(&time), zone_of(&zone)) {
                (Some(days), Some(seconds), Some(ahead)) => {
                    let total: i128 = days * 86_400 + seconds - ahead as i128;
                    if total >= i64::MIN as i128 && total <= i64::MAX as i128 {
                        Some(total as i64)
                    } else {
                        None
                    }
                },
                _ => None,
            }
        },
    }
}

// ---------------------------------------------------------------------------
// Reading a manifest
// ---------------------------------------------------------------------------

/// What is wrong with a descriptor's size.
pub open spec fn size_fault(descriptor: Descriptor) -> Option<Seq<char>> {
    if descriptor.size < 0 {
        Some("restore point layer "@ + descriptor.digest@ + " declares a negative size"@)
    } else {
        None
    }
}

/// Whether a layer is the one that a descriptor names.
pub open spec fn is_layer_of(layer: LayerRef, descriptor: Descriptor) -> bool {
    layer.digest@ == descriptor.digest@ && layer.size == descriptor.size
}

/// The layer that a descriptor names.
fn layer_ref(descriptor: &Descriptor) -> (r: Result<LayerRef, CliError>)
    ensures
        match size_fault(*descriptor) {
            None => r matches Ok(layer) && is_layer_of(layer, *descriptor),
            Some(m) => r matches Err(e) && is_operational(e, m),
        },
{
    if descriptor.size < 0 {
        Err(
            CliError::Operational(
                cat3(
                    "restore point layer ",
                    descriptor.digest.as_str(),
                    " declares a negative size",
                ),
            ),
        )
    } else {
        Ok(LayerRef { digest: descriptor.digest.clone(), size: descriptor.size as u64 })
    }
}

/// The number that an annotation writes.
pub open spec fn number_of(annotations: Seq<(String, String)>, key: Seq<char>) -> Option<nat> {
    match value_of(annotations, key) {
        Some(value) => parse_number(value, u64::MAX as nat),
        None => None,
    }
}

fn number(annotations: &Vec<(String, String)>, key: &str) -> (r: Option<u64>)
    ensures
        match r {
            Some(n) => number_of(annotations@, key@) == Some(n as nat),
            None => number_of(annotations@, key@) is None,
        },
{
    match annotation(annotations, key) {
        Some(value) => parsed_u64(&chars_of(value.as_str())),
        None => None,
    }
}

/// A number, or 0 where there is none.
pub open spec fn or_zero(n: Option<nat>) -> nat {
    match n {
        Some(n) => n,
        None => 0,
    }
}

fn number_or_zero(annotations: &Vec<(String, String)>, key: &str) -> (r: u64)
    ensures
        r == or_zero(number_of(annotations@, key@)),
{
    match number(annotations, key) {
        Some(n) => n,
        None => 0,
    }
}

/// The message about an annotation that is missing.
pub open spec fn missing_message(reference: Seq<char>, key: Seq<char>) -> Seq<char> {
    "restore point "@ + reference + " does not carry the "@ + key + " annotation"@
}

fn required(annotations: &Vec<(String, String)>, key: &str, reference: &str) -> (r: Result<
    String,
    CliError,
>)
    ensures
        if value_or_empty(annotations@, key@).len() > 0 {
            r matches Ok(value) && value@ == value_or_empty(annotations@, key@)
        } else {
            r matches Err(e) && is_operational(e, missing_message(reference@, key@))
        },
{
    let value = annotation_or_empty(annotations, key);
    if value.as_str().is_empty() {
        Err(
            CliError::Operational(
                cat5("restore point ", reference, " does not carry the ", key, " annotation"),
            ),
        )
    } else {
        Ok(value)
    }
}

/// The media types of a manifest's content.
pub open spec fn media_types(manifest: ImageManifest) -> Seq<Seq<char>> {
    seq![manifest.config.media_type@] + Seq::new(
        manifest.layers@.len(),
        |i: int| manifest.layers@[i].media_type@,
    )
}

/// What is wrong with the first layer that cannot be read, from number `i` on.
pub open spec fn layers_fault(layers: Seq<Descriptor>, reference: Seq<char>, i: int) -> Option<
    Seq<char>,
>
    decreases layers.len() - i,
{
    if i < 0 || i >= layers.len() {
        None
    } else if plain(layers[i].media_type@) != APPDATA_LAYER_MEDIA_TYPE@ {
        Some(
            "restore point "@ + reference + " carries a layer of type "@ + debug_quoted(
                layers[i].media_type@,
            ) + ("; this client can only read "@ + APPDATA_LAYER_MEDIA_TYPE@),
        )
    } else if size_fault(layers[i]) is Some {
        size_fault(layers[i])
    } else {
        layers_fault(layers, reference, i + 1)
    }
}

/// What is wrong with a manifest that publishes a restore point.
pub open spec fn point_fault(manifest: ImageManifest, reference: Seq<char>) -> Option<Seq<char>> {
    let encryption = declaration(manifest.annotations@, media_types(manifest));
    if encryption is Err {
        Some(declaration_message(encryption->Err_0))
    } else if plain(manifest.config.media_type@) != RESTORE_POINT_CONFIG_MEDIA_TYPE@ {
        Some(
            "restore point "@ + reference + " carries its index as "@ + debug_quoted(
                manifest.config.media_type@,
            ) + (", not "@ + RESTORE_POINT_CONFIG_MEDIA_TYPE@),
        )
    } else if layers_fault(manifest.layers@, reference, 0) is Some {
        layers_fault(manifest.layers@, reference, 0)
    } else if encryption->Ok_0 is None {
        Some(
            "restore point "@ + reference
                + " does not declare itself encrypted; App data layers are always sealed, so this is not a point this client can read"@,
        )
    } else if value_or_empty(manifest.annotations@, ANNOTATION_APP@).len() == 0 {
        Some(missing_message(reference, ANNOTATION_APP@))
    } else {
        size_fault(manifest.config)
    }
}

/// Whether a restore point is the one that a manifest publishes.
pub open spec fn is_point_of(
    r: ResolvedPoint,
    manifest: ImageManifest,
    digest: Seq<char>,
    reference: Seq<char>,
) -> bool {
    let notes = manifest.annotations@;
    let key = declaration(notes, media_types(manifest))->Ok_0;
    &&& r.digest@ == digest
    &&& r.point.app@ == value_or_empty(notes, ANNOTATION_APP@)
    &&& r.point.id@ == match value_of(notes, ANNOTATION_POINT@) {
        Some(id) => id,
        None => reference,
    }
    &&& key == Some(r.point.key_id@)
    &&& r.point.created_at == match timestamp(value_or_empty(notes, ANNOTATION_CREATED@)) {
        Some(seconds) => seconds,
        None => 0,
    }
    &&& is_layer_of(r.point.index, manifest.config)
    &&& r.point.files == or_zero(number_of(notes, ANNOTATION_FILES@))
    &&& r.point.bytes == or_zero(number_of(notes, ANNOTATION_BYTES@))
    &&& sealed_under(r.encryption) == key
    &&& r.layers@.len() == manifest.layers@.len()
    &&& forall|i: int|
        0 <= i < r.layers@.len() ==> is_layer_of(#[trigger] r.layers@[i], manifest.layers@[i])
    &&& r.ref_name@ == or_else(value_or_empty(notes, ANNOTATION_REF_NAME@), reference)
    &&& r.created@ == value_or_empty(notes, ANNOTATION_CREATED@)
    &&& r.pool@ == value_or_empty(notes, ANNOTATION_POOL@)
    &&& match r.slot {
        Some(n) => number_of(notes, ANNOTATION_SLOT@) == Some(n as nat),
        None => number_of(notes, ANNOTATION_SLOT@) is None,
    }
    &&& r.node@ == value_or_empty(notes, ANNOTATION_NODE@)
    &&& r.kind@ == value_or_empty(notes, ANNOTATION_KIND@)
}

/// Whether a manifest says that it publishes a restore point.
pub fn claims_point(manifest: &ImageManifest) -> (r: bool)
    ensures
        r == (manifest.artifact_type@ == RESTORE_POINT_ARTIFACT_TYPE@),
{
    same(manifest.artifact_type.as_str(), RESTORE_POINT_ARTIFACT_TYPE)
}

/// The layers of a manifest, or what is wrong with the first that cannot be read.
fn layers_of(layers: &Vec<Descriptor>, reference: &str) -> (r: Result<Vec<LayerRef>, CliError>)
    ensures
        match layers_fault(layers@, reference@, 0) {
            None => r matches Ok(out) && out@.len() == layers@.len() && forall|i: int|
                0 <= i < out@.len() ==> is_layer_of(#[trigger] out@[i], layers@[i]),
            Some(m) => r matches Err(e) && is_operational(e, m),
        },
{
    let mut out: Vec<LayerRef> = Vec::new();
    for i in 0..layers.len()
        invariant
            layers_fault(layers@, reference@, 0) == layers_fault(layers@, reference@, i as int),
            out@.len() == i,
            forall|k: int| 0 <= k < i ==> is_layer_of(#[trigger] out@[k], layers@[k]),
    {
        let layer = &layers[i];
        if !same(plain_media_type(layer.media_type.as_str()).as_str(), APPDATA_LAYER_MEDIA_TYPE) {
            return Err(
                CliError::Operational(
                    cat5(
                        "restore point ",
                        reference,
                        " carries a layer of type ",
                        quoted(layer.media_type.as_str()).as_str(),
                        cat2("; this client can only read ", APPDATA_LAYER_MEDIA_TYPE).as_str(),
                    ),
                ),
            );
        }
        match layer_ref(layer) {
            Err(e) => {
                return Err(e);
            },
            Ok(layer) => {
                out.push(layer);
            },
        }
    }
    Ok(out)
}

/// Reads a restore point from the manifest that publishes it.
pub fn parse(manifest: &ImageManifest, digest: String, reference: &str) -> (r: Result<
    ResolvedPoint,
    CliError,
>)
    ensures
        match point_fault(*manifest, reference@) {
            None => r matches Ok(point) && is_point_of(point, *manifest, digest@, reference@),
            Some(m) => r matches Err(e) && is_operational(e, m),
        },
{
    let mut types: Vec<String> = Vec::new();
    types.push(manifest.config.media_type.clone());
    assert(views(types@) =~= media_types(*manifest).take(1));
    for i in 0..manifest.layers.len()
        invariant
            views(types@) == media_types(*manifest).take(i + 1),
    {
        let ghost before = types@;
        types.push(manifest.layers[i].media_type.clone());
        assert(views(types@) =~= views(before).push(manifest.layers@[i as int].media_type@));
        assert(views(types@) =~= media_types(*manifest).take(i + 2));
    }
    assert(media_types(*manifest).take(manifest.layers@.len() as int + 1) =~= media_types(*manifest));
    let encryption = match declared(&manifest.annotations, &types) {
        Err(e) => {
            return Err(e);
        },
        Ok(encryption) => encryption,
    };
    if !same(
        plain_media_type(manifest.config.media_type.as_str()).as_str(),
        RESTORE_POINT_CONFIG_MEDIA_TYPE,
    ) {
        return Err(
            CliError::Operational(
                cat5(
                    "restore point ",
                    reference,
                    " carries its index as ",
                    quoted(manifest.config.media_type.as_str()).as_str(),
                    cat2(", not ", RESTORE_POINT_CONFIG_MEDIA_TYPE).as_str(),
                ),
            ),
        );
    }
    let layers = match layers_of(&manifest.layers, reference) {
        Err(e) => {
            return Err(e);
        },
        Ok(layers) => layers,
    };
    let key_id: String = match &encryption {
        Encryption::Plain => {
            return Err(
                CliError::Operational(
                    cat3(
                        "restore point ",
                        reference,
                        " does not declare itself encrypted; App data layers are always sealed, so this is not a point this client can read",
                    ),
                ),
            );
        },
        Encryption::Sealed { key_id } => key_id.clone(),
    };
    let notes = &manifest.annotations;
    let app = match required(notes, ANNOTATION_APP, reference) {
        Err(e) => {
            return Err(e);
        },
        Ok(app) => app,
    };
    let id: String = match annotation(notes, ANNOTATION_POINT) {
        Some(id) => id,
        None => owned(reference),
    };
    let created = annotation_or_empty(notes, ANNOTATION_CREATED);
    let canonical = annotation_or_empty(notes, ANNOTATION_REF_NAME);
    let ref_name: String = if canonical.as_str().is_empty() {
        owned(reference)
    } else {
        canonical
    };
    let index = match layer_ref(&manifest.config) {
        Err(e) => {
            return Err(e);
        },
        Ok(index) => index,
    };
    let created_at: i64 = match epoch_seconds(created.as_str()) {
        Some(seconds) => seconds,
        None => 0,
    };
    Ok(
        ResolvedPoint {
            digest,
            point: RestorePoint {
                app,
                id,
                key_id,
                created_at,
                index,
                files: number_or_zero(notes, ANNOTATION_FILES),
                bytes: number_or_zero(notes, ANNOTATION_BYTES),
            },
            encryption,
            layers,
            ref_name,
            created,
            pool: annotation_or_empty(notes, ANNOTATION_POOL),
            slot: number(notes, ANNOTATION_SLOT),
            node: annotation_or_empty(notes, ANNOTATION_NODE),
            kind: annotation_or_empty(notes, ANNOTATION_KIND),
        },
    )
}

/// Answers whether a fetched document is a restore point, and which. Nothing where it was not
/// fetched, or is something else; a document that says it is a point and is none is an error.
pub fn resolve(fetched: Option<&ManifestDocument>, digest: String, reference: &str) -> (r: Result<
    Option<ResolvedPoint>,
    CliError,
>)
    ensures
        match fetched {
            Some(ManifestDocument::Manifest(manifest)) => if manifest.artifact_type@
                == RESTORE_POINT_ARTIFACT_TYPE@ {
                match point_fault(*manifest, reference@) {
                    None => r matches Ok(Some(point)) && is_point_of(
                        point,
                        *manifest,
                        digest@,
                        reference@,
                    ),
                    Some(m) => r matches Err(e) && is_operational(e, m),
                }
            } else {
                r matches Ok(None)
            },
            _ => r matches Ok(None),
        },
{
    match fetched {
        Some(ManifestDocument::Manifest(manifest)) => {
            if !claims_point(manifest) {
                return Ok(None);
            }
            match parse(manifest, digest, reference) {
                Ok(point) => Ok(Some(point)),
                Err(e) => Err(e),
            }
        },
        _ => Ok(None),
    }
}

/// The days of the calendar follow one another: a day is one later than the one before it in its
/// month, a month begins the number of its days after it began, and the count starts with 1970.
pub proof fn law_days_follow_one_another(year: int, month: int, day: int)
    requires
        1 <= month <= 12,
    ensures
        civil_days(1970, 1, 1) == 0,
        civil_days(year, month, day + 1) == civil_days(year, month, day) + 1,
        ({
            let next = if month == 12 {
                civil_days(year + 1, 1, 1)
            } else {
                civil_days(year, month + 1, 1)
            };
            next - civil_days(year, month, 1) == (if month == 2 {
                if year % 4 == 0 && (year % 100 != 0 || year % 400 == 0) {
                    29
                } else {
                    28int
                }
            } else if month == 4 || month == 6 || month == 9 || month == 11 {
                30
            } else {
                31
            })
        }),
{
    law_years_follow_one_another(year);
}

/// A zone is told by its sign and by two digits each of hours and minutes. The same clock behind
/// the first meridian is as far behind as it is ahead of it; without a zone, and at `Z`, it is
/// neither.
pub proof fn law_a_zone_is_ahead_or_behind(h: int, m: int)
    requires
        0 <= h <= 99,
        0 <= m <= 99,
    ensures
        ({
            let hour = seq![digit_char(h / 10), digit_char(h % 10)];
            let minute = seq![digit_char(m / 10), digit_char(m % 10)];
            let ahead = zone_seconds("+"@ + hour + ":"@ + minute);
            let behind = zone_seconds("-"@ + hour + ":"@ + minute);
            &&& h <= 23 && m <= 59 ==> ahead == Some(h * 3600 + m * 60)
            &&& h <= 23 && m <= 59 ==> behind == Some(-(h * 3600 + m * 60))
            &&& h > 23 || m > 59 ==> ahead is None && behind is None
        }),
        zone_seconds("Z"@) == Some(0int),
        zone_seconds(Seq::empty()) == Some(0int),
{
    reveal_strlit("+");
    reveal_strlit("-");
    reveal_strlit(":");
    reveal_strlit("Z");
    let hour = seq![digit_char(h / 10), digit_char(h % 10)];
    let minute = seq![digit_char(m / 10), digit_char(m % 10)];
    let ahead = "+"@ + hour + ":"@ + minute;
    let behind = "-"@ + hour + ":"@ + minute;
    assert(ahead.len() == 6 && behind.len() == 6);
    assert(ahead[1] == hour[0] && ahead[2] == hour[1] && ahead[4] == minute[0] && ahead[5]
        == minute[1]);
    assert(behind[1] == hour[0] && behind[2] == hour[1] && behind[4] == minute[0] && behind[5]
        == minute[1]);
}

/// A time of the day is read as its hours, minutes and seconds, and the seconds may be left out.
pub proof fn law_a_clock_is_read(h: nat, m: nat, s: nat)
    requires
        h <= i64::MAX,
        m <= i64::MAX,
        s <= i64::MAX,
    ensures
        clock_seconds(decimal(h) + ":"@ + decimal(m) + ":"@ + decimal(s)) == Some(
            h * 3600 + m * 60 + s as int,
        ),
        clock_seconds(decimal(h) + ":"@ + decimal(m)) == Some(h * 3600 + m * 60int),
{
    reveal_strlit(":");
    let (a, b, c) = (decimal(h), decimal(m), decimal(s));
    lemma_no_mark(h, ':');
    lemma_no_mark(m, ':');
    lemma_no_mark(s, ':');
    crate::text::law_a_signed_number_is_read_back(h as int);
    crate::text::law_a_signed_number_is_read_back(m as int);
    crate::text::law_a_signed_number_is_read_back(s as int);
    assert(a + ":"@ + b =~= a + seq![':'] + b);
    assert(a + ":"@ + b + ":"@ + c =~= a + seq![':'] + (b + seq![':'] + c));
    crate::text::law_a_text_is_split_at_each_separator(a, ':', b);
    crate::text::law_a_text_is_split_at_each_separator(a, ':', b + seq![':'] + c);
    crate::text::law_a_text_is_split_at_each_separator(b, ':', c);
    crate::text::law_a_text_is_split_at_each_separator(c, ':', c);
    let two = split(a + ":"@ + b, ':');
    assert(two =~= seq![a, b]);
    let three = split(a + ":"@ + b + ":"@ + c, ':');
    assert(three =~= seq![a, b, c]);
}

/// A date is read as its year, month and day, and is none where a month has no such number or no
/// month has such a day.
pub proof fn law_a_date_is_read(y: nat, m: nat, d: nat)
    requires
        y <= i64::MAX,
        m <= i64::MAX,
        d <= i64::MAX,
    ensures
        date_days(decimal(y) + "-"@ + decimal(m) + "-"@ + decimal(d)) == (if 1 <= m <= 12 && 1 <= d
            <= 31 {
            Some(civil_days(y as int, m as int, d as int))
        } else {
            None
        }),
{
    reveal_strlit("-");
    let (a, b, c) = (decimal(y), decimal(m), decimal(d));
    lemma_no_mark(y, '-');
    lemma_no_mark(m, '-');
    lemma_no_mark(d, '-');
    crate::text::law_a_signed_number_is_read_back(y as int);
    crate::text::law_a_signed_number_is_read_back(m as int);
    crate::text::law_a_signed_number_is_read_back(d as int);
    assert(a + "-"@ + b + "-"@ + c =~= a + seq!['-'] + (b + seq!['-'] + c));
    crate::text::law_a_text_is_split_at_each_separator(a, '-', b + seq!['-'] + c);
    crate::text::law_a_text_is_split_at_each_separator(b, '-', c);
    crate::text::law_a_text_is_split_at_each_separator(c, '-', c);
    assert(split(a + "-"@ + b + "-"@ + c, '-') =~= seq![a, b, c]);
}

proof fn lemma_no_mark(n: nat, c: char)
    requires
        !('0' <= c <= '9'),
    ensures
        !decimal(n).contains(c),
    decreases n,
{
    if n < 10 {
        assert(decimal(n)[0] == digit_char(n as int));
    } else {
        lemma_no_mark(n / 10, c);
        let d = decimal(n);
        if d.contains(c) {
            let i = d.index_of(c);
            if i < d.len() - 1 {
                assert(decimal(n / 10)[i] == c);
            }
        }
    }
}

/// A moment is its date, its time of the day and its zone, of which the date is told from the time
/// by a letter or a space between them. A fraction of a second does not count.
pub proof fn law_a_moment_is_read(
    date: Seq<char>,
    mark: char,
    time: Seq<char>,
    fraction: Seq<char>,
    zone: Seq<char>,
)
    requires
        mark == 'T' || mark == 't' || mark == ' ',
        forall|i: int|
            0 <= i < date.len() ==> #[trigger] date[i] != 'T' && date[i] != 't' && date[i] != ' ',
        forall|i: int|
            0 <= i < time.len() ==> #[trigger] time[i] != 'Z' && time[i] != 'z' && time[i] != '+'
                && time[i] != '-' && time[i] != '.',
        fraction.len() > 0 ==> fraction[0] == '.',
        forall|i: int|
            0 <= i < fraction.len() ==> #[trigger] fraction[i] != 'Z' && fraction[i] != 'z'
                && fraction[i] != '+' && fraction[i] != '-',
        zone.len() > 0 ==> zone[0] == 'Z' || zone[0] == 'z' || zone[0] == '+' || zone[0] == '-',
    ensures
        ({
            let moment = timestamp(date + seq![mark] + time + fraction + zone);
            match (date_days(date), clock_seconds(time), zone_seconds(zone)) {
                (Some(days), Some(seconds), Some(ahead)) => {
                    let total = days * 86400 + seconds - ahead;
                    moment == (if i64::MIN <= total <= i64::MAX {
                        Some(total)
                    } else {
                        None
                    })
                },
                _ => moment is None,
            }
        }),
{
    let value = date + seq![mark] + time + fraction + zone;
    let zoned = time + fraction;
    let rest = zoned + zone;
    assert(value =~= date + seq![mark] + rest);
    lemma_date_ends(date, mark, rest);
    assert(value.take(date.len() as int) =~= date);
    assert(value.skip(date.len() as int + 1) =~= rest);
    assert forall|i: int| 0 <= i < zoned.len() implies #[trigger] zoned[i] != 'Z' && zoned[i] != 'z'
        && zoned[i] != '+' && zoned[i] != '-' by {
        if i < time.len() {
            assert(zoned[i] == time[i]);
        } else {
            assert(zoned[i] == fraction[i - time.len()]);
        }
    }
    lemma_time_ends(zoned, zone);
    assert(rest.take(zoned.len() as int) =~= zoned);
    assert(rest.skip(zoned.len() as int) =~= zone);
    crate::text::lemma_find_from(zoned, '.', 0);
    let cut = find(zoned, '.');
    if cut < time.len() {
        assert(zoned[cut] == time[cut]);
    }
    if fraction.len() > 0 {
        assert(zoned[time.len() as int] == '.');
        assert(!(cut > time.len()));
    }
    assert(zoned.take(cut) =~= time);
}

proof fn lemma_date_ends(date: Seq<char>, mark: char, rest: Seq<char>)
    requires
        mark == 'T' || mark == 't' || mark == ' ',
        forall|i: int|
            0 <= i < date.len() ==> #[trigger] date[i] != 'T' && date[i] != 't' && date[i] != ' ',
    ensures
        find_any_from(date + seq![mark] + rest, "Tt "@, 0) == date.len(),
{
    reveal_strlit("Tt ");
    let value = date + seq![mark] + rest;
    let set = "Tt "@;
    crate::text::law_the_first_of_a_set_is_found(value, set, 0);
    let at = find_any_from(value, set, 0);
    assert(set[0] == 'T' && set[1] == 't' && set[2] == ' ');
    assert(value[date.len() as int] == mark);
    assert(set.contains(mark));
    assert(!(at > date.len()));
    if at < date.len() {
        assert(value[at] == date[at]);
        let k = set.index_of(date[at]);
        assert(set[k] == date[at]);
    }
}

proof fn lemma_time_ends(zoned: Seq<char>, zone: Seq<char>)
    requires
        zone.len() > 0 ==> zone[0] == 'Z' || zone[0] == 'z' || zone[0] == '+' || zone[0] == '-',
        forall|i: int|
            0 <= i < zoned.len() ==> #[trigger] zoned[i] != 'Z' && zoned[i] != 'z' && zoned[i] != '+'
                && zoned[i] != '-',
    ensures
        find_any_from(zoned + zone, "Zz+-"@, 0) == zoned.len(),
{
    reveal_strlit("Zz+-");
    let rest = zoned + zone;
    let set = "Zz+-"@;
    crate::text::law_the_first_of_a_set_is_found(rest, set, 0);
    let at = find_any_from(rest, set, 0);
    assert(set[0] == 'Z' && set[1] == 'z' && set[2] == '+' && set[3] == '-');
    if zone.len() > 0 {
        assert(rest[zoned.len() as int] == zone[0]);
        assert(set.contains(zone[0]));
        assert(!(at > zoned.len()));
    }
    if at < zoned.len() {
        assert(rest[at] == zoned[at]);
        let k = set.index_of(zoned[at]);
        assert(set[k] == zoned[at]);
    }
}

/// A name of at most 96 letters, digits, hyphens and underscores is kept as it is.
pub proof fn law_a_plain_name_is_kept(s: Seq<char>)
    requires
        s.len() <= 96,
        forall|i: int|
            0 <= i < s.len() ==> {
                ||| 'a' <= #[trigger] s[i] <= 'z'
                ||| 'A' <= s[i] <= 'Z'
                ||| '0' <= s[i] <= '9'
                ||| s[i] == '-'
                ||| s[i] == '_'
            },
    ensures
        segment_of(s) == s,
{
    assert(is_segment_text(s));
    assert(is_safe_segment(s));
    law_a_safe_segment_stays_as_it_is(s, s);
}

/// A safe name has no separator of paths and is no way up: it names something in one directory.
pub proof fn law_a_safe_name_stays_in_its_directory(value: Seq<char>, i: int)
    ensures
        ({
            let s = segment_of(value);
            &&& s.len() <= 96
            &&& s != "."@ && s != ".."@
            &&& 0 <= i < s.len() ==> s[i] != '/' && s[i] != '\\' && s[i] != ':' && s[i] != '\0'
            &&& value.len() == 0 ==> s.len() == 0
        }),
{
    reveal_strlit(".");
    reveal_strlit("..");
    lemma_kept(value, value.len() as int);
    let k = kept(value, value.len() as int);
    lemma_strip_start(k);
    lemma_strip_end(strip_start(k, '.'));
    let s = segment_of(value);
    if s.len() > 0 {
        assert(s.first() != '.');
    }
    if 0 <= i < s.len() {
        assert(is_segment_char(s[i]));
    }
}

/// What is written beside a destination is in its directory and has its name, with the ending of
/// what is not finished; and the directory of a destination is what precedes its name.
pub proof fn law_a_partial_file_stands_beside_its_destination(dir: Seq<char>, name: Seq<char>)
    requires
        dir.len() > 0,
        dir.last() != '/',
        name.len() > 0,
        !name.contains('/'),
        name != "."@,
        name != ".."@,
    ensures
        dir_and_name(dir + seq!['/'] + name) == (dir + seq!['/'], name),
        dir_and_name(name) == (Seq::<char>::empty(), name),
        is_name(name),
        parent_of(dir + seq!['/'] + name) == dir,
        parent_of(name) == "."@,
{
    reveal_strlit(".");
    reveal_strlit("");
    let path = dir + seq!['/'] + name;
    assert(path.last() == name.last());
    assert(name.last() != '/') by {
        if name.last() == '/' {
            assert(name[name.len() - 1] == '/');
            assert(name.contains('/'));
        }
    }
    if path.last() == '.' && path[path.len() - 2] == '/' {
        if name.len() > 1 {
            assert(path[path.len() - 2] == name[name.len() - 2]);
            assert(name.contains('/'));
        } else {
            assert(name =~= "."@);
        }
    }
    if name.len() > 1 && name.last() == '.' && name[name.len() - 2] == '/' {
        assert(name.contains('/'));
    }
    assert(without_tail(path) == path);
    assert(without_tail(name) == name);
    crate::text::law_the_nearest_is_found(dir, '/', name);
    crate::text::law_the_nearest_is_found(name, '/', name);
    assert(path.take(dir.len() as int + 1) =~= dir + seq!['/']);
    assert(path.skip(dir.len() as int + 1) =~= name);
    assert(name.take(0) =~= Seq::<char>::empty());
    assert(name.skip(0) =~= name);
    let held = dir + seq!['/'];
    assert(held.drop_last() =~= dir);
    assert(strip_end(held, '/') == strip_end(dir, '/'));
    assert(strip_end(dir, '/') == dir);
}

/// What is restored from is a restore point: its index and each of its layers have the media types
/// of one once they are decrypted, something in it is encrypted and names its key, it tells its
/// app, and no size is negative. Whatever has all that is one, and nothing else is.
pub proof fn law_only_a_sealed_point_is_restored(manifest: ImageManifest, reference: Seq<char>)
    ensures
        point_fault(manifest, reference) is None <==> {
            let key = declaration(manifest.annotations@, media_types(manifest));
            &&& key matches Ok(Some(_))
            &&& plain(manifest.config.media_type@)
                == "application/vnd.orc.appdata.restore-point.config.v1+json"@
            &&& manifest.config.size >= 0
            &&& value_or_empty(manifest.annotations@, "org.orc8r.appdata.app"@).len() > 0
            &&& forall|i: int|
                0 <= i < manifest.layers@.len() ==> plain(
                    (#[trigger] manifest.layers@[i]).media_type@,
                ) == "application/vnd.orc.appdata.layer.v1+zstd"@ && manifest.layers@[i].size >= 0
        },
{
    lemma_layers_fault(manifest.layers@, reference, 0);
}

proof fn lemma_layers_fault(layers: Seq<Descriptor>, reference: Seq<char>, i: int)
    requires
        0 <= i <= layers.len(),
    ensures
        layers_fault(layers, reference, i) is None <==> forall|k: int|
            i <= k < layers.len() ==> plain((#[trigger] layers[k]).media_type@)
                == "application/vnd.orc.appdata.layer.v1+zstd"@ && layers[k].size >= 0,
    decreases layers.len() - i,
{
    if i < layers.len() {
        lemma_layers_fault(layers, reference, i + 1);
        if layers_fault(layers, reference, i) is None {
            assert forall|k: int| i <= k < layers.len() implies plain(
                (#[trigger] layers[k]).media_type@,
            ) == "application/vnd.orc.appdata.layer.v1+zstd"@ && layers[k].size >= 0 by {
                if k == i {
                    assert(size_fault(layers[i]) is None);
                }
            }
        } else if forall|k: int|
            i <= k < layers.len() ==> plain((#[trigger] layers[k]).media_type@)
                == "application/vnd.orc.appdata.layer.v1+zstd"@ && layers[k].size >= 0 {
            assert(layers[i].size >= 0);
        }
    }
}

/// A point is what its manifest says: the digest it was found under, its index and its layers in
/// their order with their sizes, and each annotation under its own key. It is named by its
/// annotation, or else by what it was asked for by.
pub proof fn law_a_point_is_what_its_manifest_says(
    r: ResolvedPoint,
    manifest: ImageManifest,
    digest: Seq<char>,
    reference: Seq<char>,
    i: int,
)
    requires
        is_point_of(r, manifest, digest, reference),
    ensures
        ({
            let notes = manifest.annotations@;
            let name = value_or_empty(notes, "org.opencontainers.image.ref.name"@);
            let id = value_of(notes, "org.orc8r.appdata.point"@);
            let slot = value_of(notes, "org.orc8r.appdata.slot"@);
            let files = value_of(notes, "org.orc8r.appdata.files"@);
            let bytes = value_of(notes, "org.orc8r.appdata.bytes"@);
            let max = u64::MAX as nat;
            &&& r.digest@ == digest
            &&& r.point.index.digest@ == manifest.config.digest@
            &&& r.point.index.size == manifest.config.size
            &&& r.layers@.len() == manifest.layers@.len()
            &&& 0 <= i < r.layers@.len() ==> r.layers@[i].digest@ == manifest.layers@[i].digest@
                && r.layers@[i].size == manifest.layers@[i].size
            &&& r.point.app@ == value_or_empty(notes, "org.orc8r.appdata.app"@)
            &&& r.pool@ == value_or_empty(notes, "org.orc8r.appdata.pool"@)
            &&& r.node@ == value_or_empty(notes, "org.orc8r.appdata.node"@)
            &&& r.kind@ == value_or_empty(notes, "org.orc8r.appdata.kind"@)
            &&& r.created@ == value_or_empty(notes, "org.opencontainers.image.created"@)
            &&& id matches Some(id) ==> r.point.id@ == id
            &&& id is None ==> r.point.id@ == reference
            &&& name.len() > 0 ==> r.ref_name@ == name
            &&& name.len() == 0 ==> r.ref_name@ == reference
            &&& timestamp(r.created@) matches Some(t) ==> r.point.created_at == t
            &&& timestamp(r.created@) is None ==> r.point.created_at == 0
            &&& slot matches Some(n) ==> match parse_number(n, max) {
                Some(v) => r.slot is Some && r.slot->Some_0 == v,
                None => r.slot is None,
            }
            &&& slot is None ==> r.slot is None
            &&& files matches Some(n) ==> match parse_number(n, max) {
                Some(v) => r.point.files == v,
                None => r.point.files == 0,
            }
            &&& files is None ==> r.point.files == 0
            &&& bytes matches Some(n) ==> match parse_number(n, max) {
                Some(v) => r.point.bytes == v,
                None => r.point.bytes == 0,
            }
            &&& bytes is None ==> r.point.bytes == 0
        }),
{
}

proof fn lemma_kept_without(a: Seq<char>, c: char, b: Seq<char>, n: int)
    requires
        !is_segment_char(c),
        0 <= n <= b.len(),
    ensures
        kept(a + seq![c] + b, a.len() + 1 + n) == kept(a + b, a.len() + n),
    decreases n,
{
    let long = a + seq![c] + b;
    let short = a + b;
    if n > 0 {
        lemma_kept_without(a, c, b, n - 1);
        assert(long[a.len() + n] == b[n - 1]);
        assert(short[a.len() + n - 1] == b[n - 1]);
    } else {
        assert(long[a.len() as int] == c);
        lemma_kept_front(a, seq![c] + b, a.len() as int);
        lemma_kept_front(a, b, a.len() as int);
        assert(long =~= a + (seq![c] + b));
    }
}

proof fn lemma_kept_front(a: Seq<char>, b: Seq<char>, n: int)
    requires
        0 <= n <= a.len(),
    ensures
        kept(a + b, n) == kept(a, n),
    decreases n,
{
    if n > 0 {
        lemma_kept_front(a, b, n - 1);
        assert((a + b)[n - 1] == a[n - 1]);
    }
}

/// A character that a name cannot hold is left out, and what stands around it is kept as it would
/// be without it.
pub proof fn law_what_a_name_cannot_hold_is_left_out(a: Seq<char>, c: char, b: Seq<char>)
    requires
        !('a' <= c <= 'z' || 'A' <= c <= 'Z' || '0' <= c <= '9' || c == '-' || c == '_' || c == '.'),
    ensures
        segment_of(a + seq![c] + b) == segment_of(a + b),
{
    lemma_kept_without(a, c, b, b.len() as int);
}

/// A slash at the end of a path does not count, and neither does a dot behind one.
pub proof fn law_an_empty_end_does_not_count(path: Seq<char>)
    ensures
        dir_and_name(path.push('/')) == dir_and_name(path),
        parent_of(path.push('/')) == parent_of(path),
        dir_and_name(path.push('/').push('.')) == dir_and_name(path),
{
    assert(path.push('/').drop_last() =~= path);
    let dotted = path.push('/').push('.');
    assert(dotted.drop_last() =~= path.push('/'));
    assert(dotted[dotted.len() - 2] == '/');
    assert(without_tail(path.push('/')) == without_tail(path));
    assert(without_tail(dotted) == without_tail(path.push('/')));
}

/// What stands at the root is in the root.
pub proof fn law_what_stands_at_the_root_is_in_it(name: Seq<char>)
    requires
        name.len() > 0,
        !name.contains('/'),
        name != "."@,
    ensures
        dir_and_name(seq!['/'] + name) == (seq!['/'], name),
        parent_of(seq!['/'] + name) == seq!['/'],
{
    reveal_strlit(".");
    reveal_strlit("/");
    let none = Seq::<char>::empty();
    let path = seq!['/'] + name;
    assert(path =~= none + seq!['/'] + name);
    crate::text::law_the_nearest_is_found(none, '/', name);
    assert(path.last() == name.last());
    assert(name.contains(name[name.len() - 1]));
    if path.last() == '.' && path[path.len() - 2] == '/' {
        if name.len() > 1 {
            assert(path[path.len() - 2] == name[name.len() - 2]);
            assert(name.contains('/'));
        } else {
            assert(name =~= "."@);
        }
    }
    assert(without_tail(path) == path);
    assert(path.take(1) =~= seq!['/']);
    assert(path.skip(1) =~= name);
    let dir = seq!['/'];
    assert(dir.drop_last() =~= none);
    assert(strip_end(none, '/') == none);
    assert(strip_end(dir, '/') == none);
    assert("/"@ =~= dir);
}

/// Nothing that is there is removed unless it is to be replaced, and then it is removed as what it
/// is.
pub proof fn law_nothing_is_replaced_unasked(present: bool, is_directory: bool, force: bool)
    ensures
        cleared(present, is_directory, force) is None <==> present && !force,
        cleared(present, is_directory, force) == Some(Clearing::Nothing) <==> !present,
        cleared(present, is_directory, force) == Some(Clearing::RemoveTree) ==> is_directory && force,
        cleared(present, is_directory, force) == Some(Clearing::RemoveFile) ==> !is_directory && force,
{
}

/// Of a name that is too long the first 96 characters are kept.
pub proof fn law_a_long_name_is_cut(s: Seq<char>)
    requires
        s.len() > 96,
        forall|i: int|
            0 <= i < s.len() ==> {
                ||| 'a' <= #[trigger] s[i] <= 'z'
                ||| 'A' <= s[i] <= 'Z'
                ||| '0' <= s[i] <= '9'
                ||| s[i] == '-'
                ||| s[i] == '_'
            },
    ensures
        segment_of(s) == s.take(96),
{
    lemma_kept_upto(s, s.len() as int);
    let cut = s.take(96);
    assert(cut[0] == s[0] && cut[95] == s[95]);
    assert(strip_start(cut, '.') == cut);
    assert(strip_end(cut, '.') == cut);
}

proof fn lemma_kept_upto(s: Seq<char>, n: int)
    requires
        0 <= n <= s.len(),
        forall|i: int|
            0 <= i < s.len() ==> {
                ||| 'a' <= #[trigger] s[i] <= 'z'
                ||| 'A' <= s[i] <= 'Z'
                ||| '0' <= s[i] <= '9'
                ||| s[i] == '-'
                ||| s[i] == '_'
            },
    ensures
        kept(s, n) == s.take(if n <= 96 {
            n
        } else {
            96
        }),
    decreases n,
{
    if n > 0 {
        lemma_kept_upto(s, n - 1);
        if n <= 96 {
            assert(s.take(n - 1).push(s[n - 1]) =~= s.take(n));
        }
    } else {
        assert(s.take(0) =~= Seq::<char>::empty());
    }
}

/// The sizes of the layers of a point add up.
pub proof fn law_layer_sizes_add_up(a: Seq<LayerRef>, b: Seq<LayerRef>, layer: LayerRef)
    ensures
        sizes(a + b) == sizes(a) + sizes(b),
        sizes(seq![layer]) == layer.size,
    decreases b.len(),
{
    let none = Seq::<LayerRef>::empty();
    assert(seq![layer].drop_last() =~= none);
    assert(sizes(none) == 0);
    if b.len() == 0 {
        assert(a + b =~= a);
    } else {
        law_layer_sizes_add_up(a, b.drop_last(), layer);
        assert((a + b).drop_last() =~= a + b.drop_last());
        assert((a + b).last() == b.last());
    }
}

} // verus!
