//! Settings, recent lists and saved merge schemes.
use vstd::prelude::*;
use crate::desktop::model::{MergeOptions, SourceTable};
use crate::headers::texts;
use crate::text::owned;

verus! {

broadcast use vstd::seq_lib::group_seq_properties;

/// A saved merge: its tables and options.
#[derive(Debug)]
pub struct MergeScheme {
    pub format_version: u32,
    pub name: String,
    pub tables: Vec<SourceTable>,
    pub options: MergeOptions,
}

/// The user's settings.
#[derive(Clone, Debug)]
pub struct AppSettings {
    pub output_directory: String,
    pub recent_folders: Vec<String>,
    pub recent_schemes: Vec<String>,
    pub window_maximized: bool,
    pub check_updates: bool,
}

impl Default for AppSettings {
    fn default() -> (r: Self)
        ensures
            r.output_directory@.len() == 0,
            r.recent_folders@.len() == 0,
            r.recent_schemes@.len() == 0,
            !r.window_maximized,
            r.check_updates,
    {
        AppSettings {
            output_directory: String::new(),
            recent_folders: Vec::new(),
            recent_schemes: Vec::new(),
            window_maximized: false,
            check_updates: true,
        }
    }
}

/// The most entries a recent list keeps.
pub const RECENT_LIMIT: usize = 8;

/// `items` without the entries equal to `value`, in order.
pub open spec fn without(items: Seq<Seq<char>>, value: Seq<char>) -> Seq<Seq<char>>
    decreases items.len(),
{
    if items.len() == 0 {
        Seq::empty()
    } else {
        let p = without(items.drop_last(), value);
        if items.last() == value {
            p
        } else {
            p.push(items.last())
        }
    }
}

/// A recent list after using `value`: `value` first, then the other entries in order, at
/// most eight in all.
pub open spec fn remembered(items: Seq<Seq<char>>, value: Seq<char>) -> Seq<Seq<char>> {
    let all = seq![value] + without(items, value);
    if all.len() > 8 {
        all.take(8)
    } else {
        all
    }
}

/// Puts `value` at the front of the recent list `items`, removing its older entries and
/// keeping at most eight.
pub fn remember(items: &mut Vec<String>, value: String)
    ensures
        texts(final(items)@) == remembered(texts(old(items)@), value@),
{
    let ghost start = texts(items@);
    let ghost v = value@;
    let mut kept: Vec<String> = Vec::new();
    kept.push(value.clone());
    let mut i: usize = 0;
    while i < items.len()
        invariant
            i <= items@.len(),
            start == texts(items@),
            v == value@,
            texts(kept@) == seq![v] + without(start.take(i as int), v),
        decreases items@.len() - i,
    {
        proof {
            assert(start.take(i + 1).drop_last() =~= start.take(i as int));
            assert(start.take(i + 1).last() == items@[i as int]@);
        }
        if items[i] != value {
            let ghost prev = kept@;
            kept.push(items[i].clone());
            proof {
                assert(texts(kept@) =~= texts(prev).push(items@[i as int]@));
            }
        }
        i = i + 1;
    }
    proof {
        assert(start.take(start.len() as int) =~= start);
    }
    let mut out: Vec<String> = Vec::new();
    let mut j: usize = 0;
    while j < kept.len() && j < RECENT_LIMIT
        invariant
            j <= kept@.len(),
            j <= RECENT_LIMIT,
            texts(out@) == texts(kept@).take(j as int),
        decreases kept@.len() - j,
    {
        let ghost prev = out@;
        out.push(kept[j].clone());
        proof {
            assert(texts(out@) =~= texts(prev).push(kept@[j as int]@));
            assert(texts(kept@).take(j + 1) =~= texts(kept@).take(j as int).push(kept@[j as int]@));
        }
        j = j + 1;
    }
    proof {
        if kept@.len() <= 8 {
            assert(texts(kept@).take(kept@.len() as int) =~= texts(kept@));
        }
    }
    *items = out;
}

/// The highest scheme format this version reads.
pub const SCHEME_FORMAT_VERSION: u32 = 1;

/// Checks that a scheme's format can be read: none newer than this version's.
pub fn check_scheme_version(format_version: u32) -> (r: Result<(), String>)
    ensures
        format_version <= 1 ==> r is Ok,
        format_version > 1 ==> (r matches Err(m) && m@ == "该方案由更高版本的软件创建，当前版本无法读取"@),
{
    if format_version > SCHEME_FORMAT_VERSION {
        return Err(owned("该方案由更高版本的软件创建，当前版本无法读取"));
    }
    Ok(())
}

/// After using `value`, the recent list starts with it, holds it only once, keeps at most
/// eight entries, and every other entry was in the list before.
pub proof fn lemma_remembered_shape(items: Seq<Seq<char>>, value: Seq<char>, i: int)
    ensures
        remembered(items, value).len() >= 1,
        remembered(items, value).len() <= 8,
        remembered(items, value)[0] == value,
        1 <= i < remembered(items, value).len() ==> remembered(items, value)[i] != value
            && items.contains(remembered(items, value)[i]),
{
    lemma_without_members(items, value);
    let all = seq![value] + without(items, value);
    if 1 <= i < remembered(items, value).len() {
        assert(remembered(items, value)[i] == all[i]);
        assert(all[i] == without(items, value)[i - 1]);
    }
}

/// The entries left after removing `value` are entries of `items` other than `value`.
proof fn lemma_without_members(items: Seq<Seq<char>>, value: Seq<char>)
    ensures
        without(items, value).len() <= items.len(),
        forall|j: int|
            0 <= j < without(items, value).len() ==> #[trigger] without(items, value)[j] != value
                && items.contains(without(items, value)[j]),
    decreases items.len(),
{
    if items.len() > 0 {
        lemma_without_members(items.drop_last(), value);
        let p = without(items.drop_last(), value);
        assert forall|j: int| 0 <= j < without(items, value).len() implies #[trigger] without(items, value)[j]
            != value && items.contains(without(items, value)[j]) by {
            if j < p.len() {
                assert(without(items, value)[j] == p[j]);
                let k = choose|k: int| 0 <= k < items.drop_last().len() && items.drop_last()[k] == p[j];
                assert(items[k] == p[j]);
            } else {
                assert(without(items, value)[j] == items.last());
                assert(items[items.len() - 1] == items.last());
            }
        }
    }
}

} // verus!
