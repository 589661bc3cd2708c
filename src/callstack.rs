use vstd::prelude::*;

verus! {

/// `pat` occurs in `hay` starting at position `i`.
pub open spec fn occurs_at(hay: Seq<char>, pat: Seq<char>, i: int) -> bool {
    0 <= i && i + pat.len() <= hay.len() && hay.subrange(i, i + pat.len()) == pat
}

/// `pat` occurs somewhere in `hay`.
pub open spec fn contains_pattern(hay: Seq<char>, pat: Seq<char>) -> bool {
    exists|i: int| occurs_at(hay, pat, i)
}

/// Number of entries in the table of known allocation sites.
pub const NUM_CALLSTACK_PATTERNS: usize = 20;

/// The known allocation sites: a substring to look for in a callstack, and the
/// short label that stands for it.
pub open spec fn callstack_pattern(i: int) -> (Seq<char>, Seq<char>) {
    if i == 0 {
        ("App::receive_messages"@, "App::receive_messages"@)
    } else if i == 1 {
        ("w_store::store::ComponentBucket>::archive"@, "archive"@)
    } else if i == 2 {
        ("DataStore>::insert"@, "DataStore"@)
    } else if i == 3 {
        ("EntityDb"@, "EntityDb"@)
    } else if i == 4 {
        ("EntityDb"@, "EntityDb"@)
    } else if i == 5 {
        ("EntityTree"@, "EntityTree"@)
    } else if i == 6 {
        ("::LogMsg>::deserialize"@, "LogMsg"@)
    } else if i == 7 {
        ("::TimePoint>::deserialize"@, "TimePoint"@)
    } else if i == 8 {
        ("ImageCache"@, "ImageCache"@)
    } else if i == 9 {
        ("gltf"@, "gltf"@)
    } else if i == 10 {
        ("image::image"@, "image"@)
    } else if i == 11 {
        ("epaint::text::text_layout"@, "text_layout"@)
    } else if i == 12 {
        ("egui_wgpu"@, "egui_wgpu"@)
    } else if i == 13 {
        ("wgpu_hal"@, "wgpu_hal"@)
    } else if i == 14 {
        ("prepare_staging_buffer"@, "prepare_staging_buffer"@)
    } else if i == 15 {
        ("crossbeam::channel::Sender"@, "crossbeam::channel::Sender"@)
    } else if i == 16 {
        ("epaint::texture_atlas"@, "egui font texture"@)
    } else if i == 17 {
        ("alloc::collections::btree::map::BTreeSet<K,V,A>"@, "BTreeSet"@)
    } else if i == 18 {
        ("alloc::collections::btree::map::BTreeMap<K,V,A>"@, "BTreeMap"@)
    } else {
        ("std::collections::hash::map::HashMap<K,V,S>"@, "HashMap"@)
    }
}

fn pattern(i: usize) -> (r: (&'static str, &'static str))
    requires
        i < NUM_CALLSTACK_PATTERNS,
    ensures
        r.0@ == callstack_pattern(i as int).0,
        r.1@ == callstack_pattern(i as int).1,
{
    match i {
        0 => ("App::receive_messages", "App::receive_messages"),
        1 => ("w_store::store::ComponentBucket>::archive", "archive"),
        2 => ("DataStore>::insert", "DataStore"),
        3 => ("EntityDb", "EntityDb"),
        4 => ("EntityDb", "EntityDb"),
        5 => ("EntityTree", "EntityTree"),
        6 => ("::LogMsg>::deserialize", "LogMsg"),
        7 => ("::TimePoint>::deserialize", "TimePoint"),
        8 => ("ImageCache", "ImageCache"),
        9 => ("gltf", "gltf"),
        10 => ("image::image", "image"),
        11 => ("epaint::text::text_layout", "text_layout"),
        12 => ("egui_wgpu", "egui_wgpu"),
        13 => ("wgpu_hal", "wgpu_hal"),
        14 => ("prepare_staging_buffer", "prepare_staging_buffer"),
        15 => ("crossbeam::channel::Sender", "crossbeam::channel::Sender"),
        16 => ("epaint::texture_atlas", "egui font texture"),
        17 => ("alloc::collections::btree::map::BTreeSet<K,V,A>", "BTreeSet"),
        18 => ("alloc::collections::btree::map::BTreeMap<K,V,A>", "BTreeMap"),
        _ => ("std::collections::hash::map::HashMap<K,V,S>", "HashMap"),
    }
}

/// The labels of the patterns among the first `n` that occur in `callstack`,
/// in table order.
pub open spec fn matched_labels(callstack: Seq<char>, n: int) -> Seq<Seq<char>>
    decreases n,
{
    if n <= 0 {
        seq![]
    } else {
        let prev = matched_labels(callstack, n - 1);
        if contains_pattern(callstack, callstack_pattern(n - 1).0) {
            prev.push(callstack_pattern(n - 1).1)
        } else {
            prev
        }
    }
}

/// `parts` joined by `sep`.
pub open spec fn join_with(parts: Seq<Seq<char>>, sep: Seq<char>) -> Seq<char>
    decreases parts.len(),
{
    if parts.len() == 0 {
        seq![]
    } else if parts.len() == 1 {
        parts[0]
    } else {
        join_with(parts.drop_last(), sep) + sep + parts.last()
    }
}

fn chars_of(s: &str) -> (r: Vec<char>)
    ensures
        r@ == s@,
{
    let n = s.unicode_len();
    let mut r: Vec<char> = Vec::new();
    let mut i: usize = 0;
    while i < n
        invariant
            n == s@.len(),
            i <= n,
            r@ == s@.subrange(0, i as int),
        decreases n - i,
    {
        r.push(s.get_char(i));
        i += 1;
    }
    assert(r@ =~= s@);
    r
}

fn occurs_at_exec(hay: &Vec<char>, pat: &Vec<char>, i: usize) -> (r: bool)
    requires
        i + pat@.len() <= hay@.len(),
    ensures
        r == occurs_at(hay@, pat@, i as int),
{
    let hl = hay.len();
    let mut j: usize = 0;
    while j < pat.len()
        invariant
            hl == hay@.len(),
            i + pat@.len() <= hay@.len(),
            j <= pat@.len(),
            forall|k: int| 0 <= k < j ==> hay@[i + k] == pat@[k],
        decreases pat@.len() - j,
    {
        assert(i + j < hay@.len());
        if hay[i + j] != pat[j] {
            assert(hay@.subrange(i as int, i + pat@.len())[j as int] != pat@[j as int]);
            return false;
        }
        j += 1;
    }
    assert(hay@.subrange(i as int, i + pat@.len()) =~= pat@);
    true
}

fn contains_exec(hay: &Vec<char>, pat: &Vec<char>) -> (r: bool)
    ensures
        r == contains_pattern(hay@, pat@),
{
    if pat.len() > hay.len() {
        return false;
    }
    if pat.len() == 0 {
        assert(hay@.subrange(0, 0) =~= pat@);
        assert(occurs_at(hay@, pat@, 0));
        return true;
    }
    let hl = hay.len();
    let last = hl - pat.len();
    let mut i: usize = 0;
    while i <= last
        invariant
            hl == hay@.len(),
            last < hl,
            last + pat@.len() == hay@.len(),
            pat@.len() >= 1,
            i <= last + 1,
            forall|k: int| 0 <= k < i ==> !occurs_at(hay@, pat@, k),
        decreases last + 1 - i,
    {
        if occurs_at_exec(hay, pat, i) {
            return true;
        }
        i += 1;
    }
    false
}

/// Summarizes a callstack by the labels of the known allocation sites that it
/// mentions, in table order, separated by `", "`.
pub fn summarize_callstack(callstack: &str) -> (r: String)
    ensures
        r@ == join_with(matched_labels(callstack@, NUM_CALLSTACK_PATTERNS as int), ", "@),
{
    let hay = chars_of(callstack);
    let mut out = String::new();
    let mut count: usize = 0;
    let mut i: usize = 0;
    while i < NUM_CALLSTACK_PATTERNS
        invariant
            hay@ == callstack@,
            i <= NUM_CALLSTACK_PATTERNS,
            count == matched_labels(callstack@, i as int).len(),
            count <= i,
            out@ == join_with(matched_labels(callstack@, i as int), ", "@),
        decreases NUM_CALLSTACK_PATTERNS - i,
    {
        let (pat, label) = pattern(i);
        let pat_chars = chars_of(pat);
        let ghost prev = matched_labels(callstack@, i as int);
        if contains_exec(&hay, &pat_chars) {
            assert(matched_labels(callstack@, i + 1) == prev.push(label@));
            assert(prev.push(label@).drop_last() =~= prev);
            if count > 0 {
                out.append(", ");
            }
            out.append(label);
            count += 1;
        }
        i += 1;
    }
    out
}

} // verus!
