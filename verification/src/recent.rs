//! The viewer's list of recently opened workspaces: most recent first, at
//! most twenty, each with an optional display alias.
use vstd::prelude::*;
use crate::text::{str_eq, text};

verus! {

/// Most workspaces the list keeps.
pub const MAX_RECENT: usize = 20;

/// A recently opened workspace. The time it was last opened is held as
/// nanoseconds since the Unix epoch.
pub struct RecentWorkspace {
    pub path: String,
    pub alias: Option<String>,
    pub last_opened_at: i128,
}

/// What an entry holds.
pub struct RecentView {
    pub path: Seq<char>,
    pub alias: Option<Seq<char>>,
    pub last_opened_at: i128,
}

impl View for RecentWorkspace {
    type V = RecentView;

    open spec fn view(&self) -> RecentView {
        RecentView {
            path: self.path@,
            alias: match self.alias {
                Some(a) => Some(a@),
                None => None,
            },
            last_opened_at: self.last_opened_at,
        }
    }
}

/// The entries' views, in order.
pub open spec fn entry_views(s: Seq<RecentWorkspace>) -> Seq<RecentView> {
    Seq::new(s.len(), |i: int| s[i]@)
}

/// The stored list.
pub struct RecentFile {
    pub version: u8,
    pub workspaces: Vec<RecentWorkspace>,
}

impl Default for RecentFile {
    /// Version 1, no workspaces.
    fn default() -> (f: Self)
        ensures
            f.version == 1,
            f.workspaces@.len() == 0,
    {
        RecentFile { version: 1, workspaces: Vec::new() }
    }
}

/// Index of the first entry with a time before `t`, or the length.
pub open spec fn first_older(s: Seq<RecentView>, t: i128) -> int
    decreases s.len(),
{
    if s.len() == 0 {
        0
    } else if s[0].last_opened_at < t {
        0
    } else {
        1 + first_older(s.drop_first(), t)
    }
}

/// `x` inserted after every entry at least as recent.
pub open spec fn insert_by_recency(s: Seq<RecentView>, x: RecentView) -> Seq<RecentView> {
    s.insert(first_older(s, x.last_opened_at), x)
}

/// The entries ordered from most to least recent, entries opened at the
/// same time keeping their order.
pub open spec fn by_recency(s: Seq<RecentView>) -> Seq<RecentView>
    decreases s.len(),
{
    if s.len() == 0 {
        Seq::empty()
    } else {
        insert_by_recency(by_recency(s.drop_last()), s.last())
    }
}

/// The entries are ordered from most to least recent.
pub open spec fn most_recent_first(s: Seq<RecentView>) -> bool {
    forall|i: int, j: int| 0 <= i < j < s.len() ==> s[j].last_opened_at <= s[i].last_opened_at
}

/// Index of the first entry for `path`, if any.
pub open spec fn find_path(s: Seq<RecentView>, path: Seq<char>) -> Option<int>
    decreases s.len(),
{
    if s.len() == 0 {
        None
    } else if s[0].path == path {
        Some(0)
    } else {
        match find_path(s.drop_first(), path) {
            Some(k) => Some(k + 1),
            None => None,
        }
    }
}

/// The entries after opening `path` at `now`: its first entry's time
/// updated (or an entry without alias added), ordered by recency and cut to
/// twenty.
pub open spec fn touched(s: Seq<RecentView>, path: Seq<char>, now: i128) -> Seq<RecentView> {
    let updated = match find_path(s, path) {
        Some(k) => s.update(k, RecentView { last_opened_at: now, ..s[k] }),
        None => s.push(RecentView { path, alias: None, last_opened_at: now }),
    };
    let sorted = by_recency(updated);
    if sorted.len() > 20 { sorted.subrange(0, 20) } else { sorted }
}

proof fn lemma_first_older(s: Seq<RecentView>, t: i128)
    ensures
        0 <= first_older(s, t) <= s.len(),
        forall|j: int| 0 <= j < first_older(s, t) ==> s[j].last_opened_at >= t,
        first_older(s, t) < s.len() ==> s[first_older(s, t)].last_opened_at < t,
    decreases s.len(),
{
    if s.len() > 0 && s[0].last_opened_at >= t {
        lemma_first_older(s.drop_first(), t);
        assert forall|j: int| 0 <= j < first_older(s, t) implies s[j].last_opened_at >= t by {
            if j > 0 {
                assert(s[j] == s.drop_first()[j - 1]);
            }
        }
    }
}

proof fn lemma_find_path(s: Seq<RecentView>, path: Seq<char>)
    ensures
        match find_path(s, path) {
            Some(k) => 0 <= k < s.len() && s[k].path == path && forall|j: int| 0 <= j < k ==> s[j].path != path,
            None => forall|j: int| 0 <= j < s.len() ==> s[j].path != path,
        },
    decreases s.len(),
{
    if s.len() > 0 && s[0].path != path {
        lemma_find_path(s.drop_first(), path);
        let t = s.drop_first();
        match find_path(t, path) {
            Some(k) => {
                assert forall|j: int| 0 <= j < k + 1 implies s[j].path != path by {
                    if j > 0 {
                        assert(s[j] == t[j - 1]);
                    }
                }
            },
            None => {
                assert forall|j: int| 0 <= j < s.len() implies s[j].path != path by {
                    if j > 0 {
                        assert(s[j] == t[j - 1]);
                    }
                }
            },
        }
    }
}

/// Inserting by recency into a list ordered most recent first keeps it so.
proof fn lemma_insert_keeps_order(s: Seq<RecentView>, x: RecentView)
    requires
        most_recent_first(s),
    ensures
        most_recent_first(insert_by_recency(s, x)),
        insert_by_recency(s, x).len() == s.len() + 1,
{
    lemma_first_older(s, x.last_opened_at);
    let k = first_older(s, x.last_opened_at);
    let r = insert_by_recency(s, x);
    assert forall|i: int, j: int| 0 <= i < j < r.len() implies r[j].last_opened_at <= r[i].last_opened_at by {
        if j < k {
        } else if j == k {
        } else if i < k {
            assert(r[j] == s[j - 1]);
            if k < s.len() {
                assert(s[j - 1].last_opened_at <= s[k].last_opened_at || j - 1 == k);
            }
        } else if i == k {
            assert(r[j] == s[j - 1]);
            assert(s[j - 1].last_opened_at <= s[k].last_opened_at);
        } else {
            assert(r[j] == s[j - 1]);
            assert(r[i] == s[i - 1]);
        }
    }
}

/// Ordering by recency puts the entries most recent first, and keeps their
/// number.
pub proof fn lemma_by_recency_ordered(s: Seq<RecentView>)
    ensures
        most_recent_first(by_recency(s)),
        by_recency(s).len() == s.len(),
    decreases s.len(),
{
    if s.len() > 0 {
        lemma_by_recency_ordered(s.drop_last());
        lemma_insert_keeps_order(by_recency(s.drop_last()), s.last());
    }
}

/// After a workspace is opened the list is ordered most recent first and
/// holds at most twenty entries.
pub proof fn lemma_touched_ordered(s: Seq<RecentView>, path: Seq<char>, now: i128)
    ensures
        most_recent_first(touched(s, path, now)),
        touched(s, path, now).len() <= 20,
{
    let updated = match find_path(s, path) {
        Some(k) => s.update(k, RecentView { last_opened_at: now, ..s[k] }),
        None => s.push(RecentView { path, alias: None, last_opened_at: now }),
    };
    lemma_by_recency_ordered(updated);
}

/// The entries other than those for `path`, in order.
pub open spec fn without_path(s: Seq<RecentView>, path: Seq<char>) -> Seq<RecentView> {
    s.filter(|w: RecentView| w.path != path)
}

/// After a workspace is removed no entry for it is left.
pub proof fn lemma_removed_absent(s: Seq<RecentView>, path: Seq<char>)
    ensures
        forall|i: int| 0 <= i < without_path(s, path).len() ==> (#[trigger] without_path(s, path)[i]).path != path,
{
    broadcast use vstd::seq_lib::group_filter_ensures;
    let f = without_path(s, path);
    assert forall|i: int| 0 <= i < f.len() implies (#[trigger] f[i]).path != path by {
        assert((|w: RecentView| w.path != path)(f[i]));
    }
}

fn find_workspace(workspaces: &Vec<RecentWorkspace>, path: &str) -> (r: Option<usize>)
    ensures
        match find_path(entry_views(workspaces@), path@) {
            Some(k) => 0 <= k < workspaces@.len() && r is Some && r->0 == k,
            None => r is None,
        },
{
    let ghost v = entry_views(workspaces@);
    proof {
        lemma_find_path(v, path@);
    }
    let mut i: usize = 0;
    assert(v.subrange(0, v.len() as int) =~= v);
    while i < workspaces.len()
        invariant
            i <= workspaces@.len(),
            v == entry_views(workspaces@),
            find_path(v, path@) == match find_path(v.subrange(i as int, v.len() as int), path@) {
                Some(k) => Some(k + i),
                None => None::<int>,
            },
        decreases workspaces@.len() - i,
    {
        let ghost rest = v.subrange(i as int, v.len() as int);
        assert(rest.drop_first() =~= v.subrange(i + 1, v.len() as int));
        assert(rest[0] == workspaces@[i as int]@);
        if str_eq(workspaces[i].path.as_str(), path) {
            return Some(i);
        }
        i += 1;
    }
    None
}

fn sort_by_recency(workspaces: Vec<RecentWorkspace>) -> (sorted: Vec<RecentWorkspace>)
    ensures
        entry_views(sorted@) == by_recency(entry_views(workspaces@)),
{
    let ghost all = entry_views(workspaces@);
    let mut sorted: Vec<RecentWorkspace> = Vec::new();
    let mut rest = workspaces;
    let ghost rest0 = rest@;
    assert(all.subrange(0, 0) =~= Seq::<RecentView>::empty());
    assert(entry_views(sorted@) =~= Seq::<RecentView>::empty());
    assert(rest@ =~= rest0.subrange(0, rest0.len() as int));
    while rest.len() > 0
        invariant
            all == entry_views(rest0),
            sorted@.len() + rest@.len() == all.len(),
            entry_views(sorted@) == by_recency(all.subrange(0, sorted@.len() as int)),
            rest@ == rest0.subrange(sorted@.len() as int, rest0.len() as int),
        decreases rest@.len(),
    {
        let ghost k = sorted@.len() as int;
        let x = rest.remove(0);
        assert(x@ == all[k]);
        assert(rest@ =~= rest0.subrange(k + 1, rest0.len() as int));
        let t = x.last_opened_at;
        let ghost sv = entry_views(sorted@);
        let mut pos: usize = 0;
        assert(sv.subrange(0, sv.len() as int) =~= sv);
        while pos < sorted.len() && sorted[pos].last_opened_at >= t
            invariant
                pos <= sorted@.len(),
                sv == entry_views(sorted@),
                first_older(sv, t) == pos + first_older(sv.subrange(pos as int, sv.len() as int), t),
            decreases sorted@.len() - pos,
        {
            let ghost tail = sv.subrange(pos as int, sv.len() as int);
            assert(tail.drop_first() =~= sv.subrange(pos + 1, sv.len() as int));
            assert(tail[0] == sorted@[pos as int]@);
            pos += 1;
        }
        proof {
            let tail = sv.subrange(pos as int, sv.len() as int);
            if pos < sorted@.len() {
                assert(tail[0] == sorted@[pos as int]@);
            }
            assert(first_older(sv, t) == pos);
            assert(all.subrange(0, k + 1).drop_last() =~= all.subrange(0, k));
        }
        sorted.insert(pos, x);
        assert(entry_views(sorted@) =~= sv.insert(pos as int, x@));
    }
    assert(all.subrange(0, all.len() as int) =~= all);
    sorted
}

/// Records that the workspace at `workspace_path` was opened at `now`: its
/// entry's time is updated, or an entry without alias is added; the list is
/// then ordered most recent first and cut to twenty entries.
pub fn touch(data: &mut RecentFile, workspace_path: &str, now: i128)
    ensures
        final(data).version == old(data).version,
        entry_views(final(data).workspaces@) == touched(entry_views(old(data).workspaces@), workspace_path@,
            now),
{
    let mut workspaces: Vec<RecentWorkspace> = Vec::new();
    std::mem::swap(&mut workspaces, &mut data.workspaces);
    let ghost old_v = entry_views(workspaces@);
    match find_workspace(&workspaces, workspace_path) {
        Some(k) => {
            let mut entry = workspaces.remove(k);
            entry.last_opened_at = now;
            workspaces.insert(k, entry);
            proof {
                assert(entry_views(workspaces@) =~= old_v.update(k as int, RecentView {
                    last_opened_at: now,
                    ..old_v[k as int]
                }));
            }
        },
        None => {
            let entry = RecentWorkspace { path: text(workspace_path), alias: None, last_opened_at: now };
            let ghost before = workspaces@;
            workspaces.push(entry);
            proof {
                assert(entry_views(workspaces@) =~= old_v.push(RecentView {
                    path: workspace_path@,
                    alias: None,
                    last_opened_at: now,
                }));
            }
        },
    }
    let ghost updated = entry_views(workspaces@);
    let mut sorted = sort_by_recency(workspaces);
    let ghost sorted_v = entry_views(sorted@);
    sorted.truncate(MAX_RECENT);
    proof {
        if sorted_v.len() > 20 {
            assert(entry_views(sorted@) =~= sorted_v.subrange(0, 20));
        } else {
            assert(entry_views(sorted@) =~= sorted_v);
        }
    }
    data.workspaces = sorted;
}

/// Drops every entry for `workspace_path`.
pub fn remove(data: &mut RecentFile, workspace_path: &str)
    ensures
        final(data).version == old(data).version,
        entry_views(final(data).workspaces@) == without_path(entry_views(old(data).workspaces@), workspace_path@),
{
    let mut kept: Vec<RecentWorkspace> = Vec::new();
    let mut rest: Vec<RecentWorkspace> = Vec::new();
    std::mem::swap(&mut rest, &mut data.workspaces);
    let ghost rest0 = rest@;
    let ghost all = entry_views(rest@);
    let total = rest.len();
    assert(rest@ =~= rest0.subrange(0, rest0.len() as int));
    let ghost pred = |w: RecentView| w.path != workspace_path@;
    assert(all.subrange(0, 0).filter(pred) =~= Seq::<RecentView>::empty());
    assert(entry_views(kept@) =~= Seq::<RecentView>::empty());
    let mut taken: usize = 0;
    while rest.len() > 0
        invariant
            all == entry_views(rest0),
            taken + rest@.len() == all.len(),
            all.len() == total,
            pred == (|w: RecentView| w.path != workspace_path@),
            entry_views(kept@) == all.subrange(0, taken as int).filter(pred),
            rest@ == rest0.subrange(taken as int, rest0.len() as int),
        decreases rest@.len(),
    {
        let x = rest.remove(0);
        assert(x@ == all[taken as int]);
        assert(rest@ =~= rest0.subrange(taken + 1, rest0.len() as int));
        let ghost kv = entry_views(kept@);
        proof {
            let next = all.subrange(0, taken + 1);
            assert(next.drop_last() =~= all.subrange(0, taken as int));
            assert(next.filter(pred) == next.drop_last().filter(pred) + if pred(next.last()) {
                seq![next.last()]
            } else {
                Seq::empty()
            }) by {
                reveal(Seq::filter);
            }
        }
        if !str_eq(x.path.as_str(), workspace_path) {
            kept.push(x);
            assert(entry_views(kept@) =~= kv.push(x@));
        }
        taken += 1;
    }
    assert(all.subrange(0, all.len() as int) =~= all);
    data.workspaces = kept;
}

/// Whether `c` has the Unicode `White_Space` property.
pub open spec fn is_white_space(c: char) -> bool {
    ||| ('\u{9}' <= c <= '\u{d}')
    ||| c == ' '
    ||| c == '\u{85}'
    ||| c == '\u{a0}'
    ||| c == '\u{1680}'
    ||| ('\u{2000}' <= c <= '\u{200a}')
    ||| c == '\u{2028}'
    ||| c == '\u{2029}'
    ||| c == '\u{202f}'
    ||| c == '\u{205f}'
    ||| c == '\u{3000}'
}

/// `s` holds something besides white space.
pub open spec fn has_content(s: Seq<char>) -> bool {
    exists|i: int| 0 <= i < s.len() && !is_white_space(#[trigger] s[i])
}

pub(crate) fn is_white_space_char(c: char) -> (r: bool)
    ensures
        r == is_white_space(c),
{
    ('\u{9}' <= c && c <= '\u{d}') || c == ' ' || c == '\u{85}' || c == '\u{a0}' || c == '\u{1680}'
        || ('\u{2000}' <= c && c <= '\u{200a}') || c == '\u{2028}' || c == '\u{2029}' || c == '\u{202f}'
        || c == '\u{205f}' || c == '\u{3000}'
}

fn not_blank(s: &str) -> (r: bool)
    ensures
        r == has_content(s@),
{
    let n = s.unicode_len();
    let mut i: usize = 0;
    while i < n
        invariant
            i <= n == s@.len(),
            forall|j: int| 0 <= j < i ==> is_white_space(#[trigger] s@[j]),
        decreases n - i,
    {
        if !is_white_space_char(s.get_char(i)) {
            return true;
        }
        i += 1;
    }
    false
}

/// Sets the alias of the first entry for `workspace_path`; an alias that is
/// empty or all white space clears it. An error when there is no such entry.
pub fn set_alias(data: &mut RecentFile, workspace_path: &str, alias: Option<String>) -> (r: Result<(), String>)
    ensures
        final(data).version == old(data).version,
        match find_path(entry_views(old(data).workspaces@), workspace_path@) {
            Some(k) => r is Ok && entry_views(final(data).workspaces@) == entry_views(old(data).workspaces@).update(
                k,
                RecentView {
                    alias: match alias {
                        Some(a) => if has_content(a@) { Some(a@) } else { None },
                        None => None,
                    },
                    ..entry_views(old(data).workspaces@)[k]
                },
            ),
            None => r matches Err(e) && e@ == "Workspace not found: "@ + workspace_path@
                && final(data).workspaces@ == old(data).workspaces@,
        },
{
    let ghost before = entry_views(data.workspaces@);
    let found = find_workspace(&data.workspaces, workspace_path);
    match found {
        Some(k) => {
            let keep = match &alias {
                Some(a) => not_blank(a.as_str()),
                None => false,
            };
            let filtered = if keep { alias } else { None };
            let mut workspaces: Vec<RecentWorkspace> = Vec::new();
            std::mem::swap(&mut workspaces, &mut data.workspaces);
            let mut entry = workspaces.remove(k);
            entry.alias = filtered;
            workspaces.insert(k, entry);
            data.workspaces = workspaces;
            proof {
                assert(entry_views(data.workspaces@) =~= before.update(k as int, RecentView {
                    alias: match alias {
                        Some(a) => if has_content(a@) { Some(a@) } else { None },
                        None => None,
                    },
                    ..before[k as int]
                }));
            }
            Ok(())
        },
        None => {
            let mut e = text("Workspace not found: ");
            e.append(workspace_path);
            Err(e)
        },
    }
}

} // verus!
