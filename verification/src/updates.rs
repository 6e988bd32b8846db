//! Versions, and the notice that there is a newer one.

use vstd::prelude::*;
use crate::numbers;
use crate::text;
use crate::text::CharSet;

verus! {

/// The numbers of a version: its parts between dots, without the letter that
/// may stand in front. A part that is no number counts as zero.
pub open spec fn version_numbers(version: Seq<char>) -> Seq<nat> {
    let parts = text::split(
        text::strip_start(text::trim(version), CharSet::Two('v', 'V')),
        '.',
    );
    Seq::new(
        parts.len(),
        |i: int|
            match numbers::parse(parts[i]) {
                Some(n) => n,
                None => 0,
            },
    )
}

/// The numbers of a version.
pub fn parse_semver(version: &str) -> (r: Vec<u64>)
    ensures
        r@.len() == version_numbers(version@).len(),
        forall|i: int| 0 <= i < r@.len() ==> #[trigger] r@[i] == version_numbers(version@)[i],
{
    let parts = text::split_text(
        text::without_start(text::trimmed(version).as_str(), CharSet::Two('v', 'V')).as_str(),
        '.',
    );
    let ghost all = text::texts(parts@);
    let mut r: Vec<u64> = Vec::with_capacity(parts.len());
    let mut i: usize = 0;
    while i < parts.len()
        invariant
            i <= parts@.len() == all.len(),
            all == text::texts(parts@),
            r@.len() == i,
            forall|k: int|
                0 <= k < i ==> #[trigger] r@[k] == match numbers::parse(all[k]) {
                    Some(n) => n,
                    None => 0,
                },
        decreases parts@.len() - i,
    {
        let n = match numbers::parse_number(parts[i].as_str()) {
            Some(n) => n,
            None => 0,
        };
        assert(all[i as int] == parts@[i as int]@);
        r.push(n);
        i += 1;
    }
    r
}

/// The number at a position; zero past the end.
pub open spec fn part_at(v: Seq<nat>, i: int) -> nat {
    if i < v.len() {
        v[i]
    } else {
        0
    }
}

/// The first version is newer: at the first position where they differ, from
/// `i` on, it has the larger number.
pub open spec fn newer_from(a: Seq<nat>, b: Seq<nat>, i: int) -> bool
    decreases a.len() + b.len() - i,
{
    if i < 0 || (i >= a.len() && i >= b.len()) {
        false
    } else if part_at(a, i) != part_at(b, i) {
        part_at(a, i) > part_at(b, i)
    } else {
        newer_from(a, b, i + 1)
    }
}

/// The first version is newer than the second.
pub open spec fn is_newer(latest: Seq<char>, current: Seq<char>) -> bool {
    newer_from(version_numbers(latest), version_numbers(current), 0)
}

/// Whether the first version is newer than the second.
pub fn version_is_newer(latest: &str, current: &str) -> (r: bool)
    ensures
        r == is_newer(latest@, current@),
{
    let left = parse_semver(latest);
    let right = parse_semver(current);
    let ghost a = version_numbers(latest@);
    let ghost b = version_numbers(current@);
    let mut i: usize = 0;
    while i < left.len() || i < right.len()
        invariant
            a == version_numbers(latest@),
            b == version_numbers(current@),
            left@.len() == a.len(),
            right@.len() == b.len(),
            forall|k: int| 0 <= k < left@.len() ==> #[trigger] left@[k] == a[k],
            forall|k: int| 0 <= k < right@.len() ==> #[trigger] right@[k] == b[k],
            i <= left@.len() || i <= right@.len(),
            newer_from(a, b, 0) == newer_from(a, b, i as int),
        decreases left@.len() + right@.len() - i,
    {
        let x: u64 = if i < left.len() {
            left[i]
        } else {
            0
        };
        let y: u64 = if i < right.len() {
            right[i]
        } else {
            0
        };
        if x > y {
            return true;
        }
        if x < y {
            return false;
        }
        i += 1;
    }
    false
}

proof fn lemma_not_both(a: Seq<nat>, b: Seq<nat>, i: int)
    ensures
        !(newer_from(a, b, i) && newer_from(b, a, i)),
        !newer_from(a, a, i),
    decreases a.len() + b.len() - i,
{
    if !(i < 0 || (i >= a.len() && i >= b.len())) {
        lemma_not_both(a, b, i + 1);
        if i < a.len() {
            lemma_not_self(a, i);
        }
    }
}

proof fn lemma_not_self(a: Seq<nat>, i: int)
    ensures
        !newer_from(a, a, i),
    decreases a.len() - i + 1,
{
    if !(i < 0 || i >= a.len()) {
        lemma_not_self(a, i + 1);
    }
}

/// No version is newer than itself, and of two versions not both are newer
/// than the other.
pub proof fn newer_is_one_way(a: Seq<char>, b: Seq<char>)
    ensures
        !is_newer(a, a),
        !(is_newer(a, b) && is_newer(b, a)),
{
    lemma_not_self(version_numbers(a), 0);
    lemma_not_both(version_numbers(a), version_numbers(b), 0);
}

proof fn lemma_newer_transitive(a: Seq<nat>, b: Seq<nat>, c: Seq<nat>, i: int)
    requires
        newer_from(a, b, i),
        newer_from(b, c, i),
    ensures
        newer_from(a, c, i),
    decreases a.len() + b.len() + c.len() - i,
{
    if part_at(a, i) == part_at(b, i) && part_at(b, i) == part_at(c, i) {
        lemma_newer_transitive(a, b, c, i + 1);
    }
}

/// What is newer than a newer version is newer.
pub proof fn newer_is_transitive(a: Seq<char>, b: Seq<char>, c: Seq<char>)
    requires
        is_newer(a, b),
        is_newer(b, c),
    ensures
        is_newer(a, c),
{
    lemma_newer_transitive(version_numbers(a), version_numbers(b), version_numbers(c), 0);
}

// ---------------------------------------------------------------------------
// The check
// ---------------------------------------------------------------------------

/// What the last check found, and when.
#[derive(Debug, Clone)]
pub struct UpdateCheckState {
    pub checked_at_epoch_secs: u64,
    pub latest_version: Option<String>,
}

impl Default for UpdateCheckState {
    fn default() -> (r: UpdateCheckState)
        ensures
            r.checked_at_epoch_secs == 0,
            r.latest_version is None,
    {
        UpdateCheckState { checked_at_epoch_secs: 0, latest_version: None }
    }
}

/// Seconds of a day.
pub const CHECK_INTERVAL_SECS: u64 = 86_400;

/// The last check is less than a day old.
pub open spec fn is_recent(state: UpdateCheckState, now: u64) -> bool {
    state.checked_at_epoch_secs > if now < CHECK_INTERVAL_SECS {
        0
    } else {
        now - CHECK_INTERVAL_SECS
    }
}

/// Whether the last check is less than a day old, so that none is made.
pub fn check_is_recent(state: &UpdateCheckState, now_epoch_secs: u64) -> (r: bool)
    ensures
        r == is_recent(*state, now_epoch_secs),
{
    state.checked_at_epoch_secs > now_epoch_secs.saturating_sub(CHECK_INTERVAL_SECS)
}

/// The version of a release, by its tag; none where the tag is blank.
pub open spec fn version_of_tag(tag: Option<Seq<char>>) -> Option<Seq<char>> {
    match tag {
        Some(tag) => {
            let v = text::strip_start(text::trim(tag), CharSet::Two('v', 'V'));
            if v.len() == 0 {
                None
            } else {
                Some(v)
            }
        },
        None => None,
    }
}

/// What a check found: the version of the latest release, by its tag.
pub fn check_result(tag: Option<&str>, now_epoch_secs: u64) -> (r: UpdateCheckState)
    ensures
        r.checked_at_epoch_secs == now_epoch_secs,
        text::text_of(r.latest_version) == version_of_tag(
            match tag {
                Some(tag) => Some(tag@),
                None => None,
            },
        ),
{
    let latest_version: Option<String> = match tag {
        Some(tag) => {
            let v = text::without_start(text::trimmed(tag).as_str(), CharSet::Two('v', 'V'));
            proof {
                text::byte_len_zero(v@);
            }
            if text::len_in_bytes(v.as_str()) == 0 {
                None
            } else {
                Some(v)
            }
        },
        None => None,
    };
    UpdateCheckState { checked_at_epoch_secs: now_epoch_secs, latest_version }
}

/// The notice that there is a newer version.
pub fn update_notice(latest: &Option<String>, current: &str) -> (r: Option<String>)
    ensures
        text::text_of(r) == match text::text_of(*latest) {
            Some(v) => if is_newer(v, current@) {
                Some("Update available: "@ + v + ". Run installer script."@)
            } else {
                None
            },
            None => None,
        },
{
    match latest {
        Some(v) => {
            if version_is_newer(v.as_str(), current) {
                let mut s = text::copy_text("Update available: ");
                text::push_text(&mut s, v.as_str());
                text::push_text(&mut s, ". Run installer script.");
                Some(s)
            } else {
                None
            }
        },
        None => None,
    }
}

/// The first number in which two versions differ decides which is newer; what is
/// missing counts as zero.
pub proof fn first_different_number_decides(a: Seq<nat>, b: Seq<nat>, i: int)
    requires
        0 <= i < a.len(),
        forall|k: int|
            0 <= k < i ==> #[trigger] a[k] == if k < b.len() {
                b[k]
            } else {
                0
            },
        a[i] > if i < b.len() {
            b[i]
        } else {
            0
        },
    ensures
        newer_from(a, b, 0),
        !newer_from(b, a, 0),
{
    lemma_skip_equal(a, b, 0, i);
    lemma_not_both(a, b, 0);
}

proof fn lemma_skip_equal(a: Seq<nat>, b: Seq<nat>, from: int, i: int)
    requires
        0 <= from <= i < a.len(),
        forall|k: int|
            from <= k < i ==> #[trigger] a[k] == if k < b.len() {
                b[k]
            } else {
                0
            },
        a[i] > if i < b.len() {
            b[i]
        } else {
            0
        },
    ensures
        newer_from(a, b, from),
    decreases i - from,
{
    if from < i {
        assert(a[from] == part_at(b, from));
        lemma_skip_equal(a, b, from + 1, i);
    }
}

/// Versions with the same numbers, but for zeros at the end, are none newer than
/// the other.
pub proof fn zeros_at_the_end_are_not_newer(a: Seq<nat>, zeros: Seq<nat>)
    requires
        forall|i: int| 0 <= i < zeros.len() ==> #[trigger] zeros[i] == 0,
    ensures
        !newer_from(a + zeros, a, 0),
        !newer_from(a, a + zeros, 0),
{
    lemma_same_numbers(a + zeros, a, 0);
    lemma_same_numbers(a, a + zeros, 0);
}

proof fn lemma_same_numbers(a: Seq<nat>, b: Seq<nat>, i: int)
    requires
        forall|k: int| part_at(a, k) == #[trigger] part_at(b, k) || k < 0,
    ensures
        !newer_from(a, b, i),
    decreases a.len() + b.len() - i,
{
    if 0 <= i && (i < a.len() || i < b.len()) {
        assert(part_at(a, i) == part_at(b, i));
        lemma_same_numbers(a, b, i + 1);
    }
}

/// The numbers of a version stand between its dots, and what is no number counts
/// as zero; a `v` before them makes no difference.
pub proof fn version_numbers_stand_between_dots(version: Seq<char>, part: Seq<char>)
    requires
        version.len() > 0,
        version[0] != 'v' && version[0] != 'V' && !text::is_space(version[0]),
        !text::is_space(version.last()),
        part.len() > 0,
        !text::is_space(part.last()),
        !part.contains('.'),
    ensures
        version_numbers(version + seq!['.'] + part) == version_numbers(version).push(
            match numbers::parse(part) {
                Some(n) => n,
                None => 0,
            },
        ),
        version_numbers(seq!['v'] + version) == version_numbers(version),
        !version.contains('.') ==> version_numbers(version) == seq![
            match numbers::parse(version) {
                Some(n) => n,
                None => 0,
            },
        ],
{
    let none = Seq::<char>::empty();
    let set = CharSet::Two('v', 'V');
    let all = version + seq!['.'] + part;
    let marked = seq!['v'] + version;
    assert(all[0] == version[0]);
    assert(all.last() == part.last());
    assert(marked.last() == version.last());
    text::trimming_takes_the_spaces(none, version, none);
    text::trimming_takes_the_spaces(none, all, none);
    text::trimming_takes_the_spaces(none, marked, none);
    assert(none + version + none =~= version);
    assert(none + all + none =~= all);
    assert(none + marked + none =~= marked);
    text::stripping_takes_the_run(none, version, set);
    text::stripping_takes_the_run(none, all, set);
    assert(none + version =~= version);
    assert(none + all =~= all);
    let mark = seq!['v'];
    assert forall|i: int| 0 <= i < mark.len() implies set.has(#[trigger] mark[i]) by {}
    text::stripping_takes_the_run(mark, version, set);
    text::pieces_add_up(version, part, '.');
    text::pieces_add_up(none, version, '.');
    let n: nat = match numbers::parse(part) {
        Some(n) => n,
        None => 0,
    };
    assert(version_numbers(all) =~= version_numbers(version).push(n));
    if !version.contains('.') {
        let m: nat = match numbers::parse(version) {
            Some(m) => m,
            None => 0,
        };
        assert(version_numbers(version) =~= seq![m]);
    }
}

/// A check is recent within a day.
pub proof fn checks_last_a_day(state: UpdateCheckState, now: u64)
    ensures
        now >= 86_400 ==> (is_recent(state, now) <==> state.checked_at_epoch_secs + 86_400 > now),
        now < 86_400 ==> (is_recent(state, now) <==> state.checked_at_epoch_secs > 0),
{
}

/// The version of a tag stands behind the `v`; a tag without one has none.
pub proof fn tags_name_versions(
    before: Seq<char>,
    run: Seq<char>,
    version: Seq<char>,
    behind: Seq<char>,
)
    requires
        forall|i: int| 0 <= i < before.len() ==> text::is_space(#[trigger] before[i]),
        forall|i: int| 0 <= i < run.len() ==> #[trigger] run[i] == 'v' || run[i] == 'V',
        forall|i: int| 0 <= i < behind.len() ==> text::is_space(#[trigger] behind[i]),
        version.len() > 0 ==> version[0] != 'v' && version[0] != 'V' && !text::is_space(version[0])
            && !text::is_space(version.last()),
    ensures
        version.len() > 0 ==> version_of_tag(Some(before + (run + version) + behind)) == Some(
            version,
        ),
        version.len() == 0 ==> version_of_tag(Some(before + (run + version) + behind)) is None,
        version_of_tag(None) is None,
{
    let given = run + version;
    if given.len() > 0 {
        if run.len() > 0 {
            assert(given[0] == run[0]);
        } else {
            assert(given =~= version);
        }
        if version.len() > 0 {
            assert(given.last() == version.last());
        } else {
            assert(given.last() == run[run.len() - 1]);
        }
    }
    text::trimming_takes_the_spaces(before, given, behind);
    assert forall|i: int| 0 <= i < run.len() implies CharSet::Two('v', 'V').has(
        #[trigger] run[i],
    ) by {
        assert(run[i] == 'v' || run[i] == 'V');
    }
    text::stripping_takes_the_run(run, version, CharSet::Two('v', 'V'));
}

} // verus!
