use vstd::prelude::*;
use crate::json::{
    ws_len, str_body, lemma_skip_skip, skip_ws, scan_string, is_ws, is_hex, hex_digit_val,
    simple_unescape,
};
use crate::chars::{str_to_chars, chars_to_string};
use crate::error::ParseError;

verus! {

// ---------------------------------------------------------------------------
// The tag store: a JSON object mapping profile folder names to arrays of tag
// strings.  The whole file is read and written at once; this module gives
// the format its exact meaning and proves that writing and re-reading a
// mapping returns it unchanged.
// ---------------------------------------------------------------------------

/// Mathematical image of one tag-store entry: folder name and its tags.
pub type TagEntryM = (Seq<char>, Seq<Seq<char>>);

/// Content and length (through the closing bracket) of the non-empty string
/// list whose first string starts `s`.
pub open spec fn str_items(s: Seq<char>) -> Option<(Seq<Seq<char>>, nat)>
    decreases s.len(),
{
    if s.len() > 0 && s[0] == '"' {
        match str_body(s.skip(1)) {
            Some((t, nt)) => {
                let i1 = 1 + nt;
                if i1 <= s.len() {
                    let i2 = i1 + ws_len(s.skip(i1 as int));
                    if i2 < s.len() && s[i2 as int] == ',' {
                        let i3 = i2 + 1 + ws_len(s.skip(i2 + 1 as int));
                        if i3 <= s.len() {
                            match str_items(s.skip(i3 as int)) {
                                Some((l, n)) => Some((seq![t] + l, (i3 + n) as nat)),
                                None => None,
                            }
                        } else {
                            None
                        }
                    } else if i2 < s.len() && s[i2 as int] == ']' {
                        Some((seq![t], (i2 + 1) as nat))
                    } else {
                        None
                    }
                } else {
                    None
                }
            },
            None => None,
        }
    } else {
        None
    }
}

/// Content and length of the string array starting at the front of `s`.
pub open spec fn str_array(s: Seq<char>) -> Option<(Seq<Seq<char>>, nat)> {
    if s.len() > 0 && s[0] == '[' {
        let i = 1 + ws_len(s.skip(1));
        if i < s.len() {
            if s[i as int] == ']' {
                Some((Seq::empty(), (i + 1) as nat))
            } else {
                match str_items(s.skip(i as int)) {
                    Some((l, n)) => Some((l, (i + n) as nat)),
                    None => None,
                }
            }
        } else {
            None
        }
    } else {
        None
    }
}

/// Entries and length (through the closing brace) of the non-empty member
/// list whose first key starts `s`; every value must be a string array.
pub open spec fn tag_members(s: Seq<char>) -> Option<(Seq<TagEntryM>, nat)>
    decreases s.len(),
{
    if s.len() > 0 && s[0] == '"' {
        match str_body(s.skip(1)) {
            Some((k, nk)) => {
                let i1 = 1 + nk;
                if i1 <= s.len() {
                    let i2 = i1 + ws_len(s.skip(i1 as int));
                    if i2 < s.len() && s[i2 as int] == ':' {
                        let i3 = i2 + 1 + ws_len(s.skip(i2 + 1 as int));
                        if i3 <= s.len() {
                            match str_array(s.skip(i3 as int)) {
                                Some((l, nv)) => {
                                    let e = (k, l);
                                    let i4 = i3 + nv;
                                    if i4 <= s.len() {
                                        let i5 = i4 + ws_len(s.skip(i4 as int));
                                        if i5 < s.len() && s[i5 as int] == ',' {
                                            let i6 = i5 + 1 + ws_len(s.skip(i5 + 1 as int));
                                            if i6 <= s.len() {
                                                match tag_members(s.skip(i6 as int)) {
                                                    Some((es, n)) => Some(
                                                        (seq![e] + es, (i6 + n) as nat),
                                                    ),
                                                    None => None,
                                                }
                                            } else {
                                                None
                                            }
                                        } else if i5 < s.len() && s[i5 as int] == '}' {
                                            Some((seq![e], (i5 + 1) as nat))
                                        } else {
                                            None
                                        }
                                    } else {
                                        None
                                    }
                                },
                                None => None,
                            }
                        } else {
                            None
                        }
                    } else {
                        None
                    }
                } else {
                    None
                }
            },
            None => None,
        }
    } else {
        None
    }
}

/// Raw entries of a whole tag-store document, in file order; `None` when the
/// content is not a JSON object of string arrays (with nothing after it).
pub open spec fn tags_doc(s: Seq<char>) -> Option<Seq<TagEntryM>> {
    let w = ws_len(s);
    if w < s.len() && s[w as int] == '{' {
        let i = w + 1 + ws_len(s.skip(w + 1 as int));
        if i < s.len() && s[i as int] == '}' {
            let e = i + 1;
            if ws_len(s.skip(e as int)) == s.len() - e {
                Some(Seq::empty())
            } else {
                None
            }
        } else if i < s.len() {
            match tag_members(s.skip(i as int)) {
                Some((es, n)) => {
                    let e = i + n;
                    if e <= s.len() && ws_len(s.skip(e as int)) == s.len() - e {
                        Some(es)
                    } else {
                        None
                    }
                },
                None => None,
            }
        } else {
            None
        }
    } else {
        None
    }
}

/// Index of the first entry with the given folder key, `-1` when absent.
pub open spec fn tidx_of(es: Seq<TagEntryM>, k: Seq<char>) -> int
    decreases es.len(),
{
    if es.len() == 0 {
        -1
    } else if es[0].0 == k {
        0
    } else {
        let r = tidx_of(es.drop_first(), k);
        if r < 0 {
            -1
        } else {
            1 + r
        }
    }
}

#[verifier::rlimit(100)]
#[verifier::spinoff_prover]
pub proof fn lemma_tidx_of(es: Seq<TagEntryM>, k: Seq<char>)
    ensures
        tidx_of(es, k) < 0 ==> forall|j: int| 0 <= j < es.len() ==> es[j].0 != k,
        tidx_of(es, k) >= 0 ==> 0 <= tidx_of(es, k) < es.len() && es[tidx_of(es, k)].0 == k
            && forall|j: int| 0 <= j < tidx_of(es, k) ==> es[j].0 != k,
    decreases es.len(),
{
    if es.len() > 0 && es[0].0 != k {
        lemma_tidx_of(es.drop_first(), k);
        assert forall|j: int| 0 <= j < es.len() implies (es.drop_first()[j - 1] == es[j] || j == 0)
        by {}
    }
}

/// Insert an entry: replace the one sharing its key, else append.
pub open spec fn tupsert(es: Seq<TagEntryM>, e: TagEntryM) -> Seq<TagEntryM> {
    let i = tidx_of(es, e.0);
    if i < 0 {
        es.push(e)
    } else {
        es.update(i, e)
    }
}

/// Merge duplicate keys: the later entry wins, at the earlier position — the
/// JSON-object reading of repeated keys.
pub open spec fn dedup_tags(es: Seq<TagEntryM>) -> Seq<TagEntryM>
    decreases es.len(),
{
    if es.len() == 0 {
        Seq::empty()
    } else {
        tupsert(dedup_tags(es.drop_last()), es.last())
    }
}

/// Pairwise-distinct folder keys.
pub open spec fn distinct_keys(es: Seq<TagEntryM>) -> bool {
    forall|a: int, b: int| 0 <= a < b < es.len() ==> es[a].0 != es[b].0
}

/// Merging changes nothing when all keys are distinct.
#[verifier::rlimit(100)]
#[verifier::spinoff_prover]
pub proof fn lemma_dedup_tags_identity(es: Seq<TagEntryM>)
    requires
        distinct_keys(es),
    ensures
        dedup_tags(es) == es,
    decreases es.len(),
{
    if es.len() > 0 {
        let front = es.drop_last();
        assert(distinct_keys(front));
        lemma_dedup_tags_identity(front);
        lemma_tidx_of(front, es.last().0);
        if tidx_of(front, es.last().0) >= 0 {
            let i = tidx_of(front, es.last().0);
            assert(es[i].0 == es[es.len() - 1].0);
            assert(false);
        }
        assert(front.push(es.last()) =~= es);
    }
}

/// Merged entries always have distinct keys.
#[verifier::rlimit(100)]
#[verifier::spinoff_prover]
pub proof fn lemma_dedup_tags_distinct(es: Seq<TagEntryM>)
    ensures
        distinct_keys(dedup_tags(es)),
    decreases es.len(),
{
    if es.len() > 0 {
        let front = dedup_tags(es.drop_last());
        let e = es.last();
        lemma_dedup_tags_distinct(es.drop_last());
        lemma_tidx_of(front, e.0);
        let i = tidx_of(front, e.0);
        if i < 0 {
            assert forall|a: int, b: int| 0 <= a < b < front.push(e).len() implies front.push(
                e,
            )[a].0 != front.push(e)[b].0 by {
                if b < front.len() {
                } else {
                    assert(front.push(e)[b] == e);
                    assert(front[a].0 != e.0);
                }
            }
        } else {
            assert forall|a: int, b: int| 0 <= a < b < front.update(i, e).len() implies front
                .update(i, e)[a].0 != front.update(i, e)[b].0 by {
                assert(front[i].0 == e.0);
            }
        }
    }
}

/// The mapping a well-formed tag-store document denotes.
pub open spec fn spec_tags(s: Seq<char>) -> Option<Seq<TagEntryM>> {
    match tags_doc(s) {
        Some(es) => Some(dedup_tags(es)),
        None => None,
    }
}

/// A mapping from profile folder names to tag lists, in a fixed entry order.
pub struct TagMap {
    /// The entries, each a folder name with its tags.
    pub entries: Vec<(String, Vec<String>)>,
}

/// The mathematical entries a vector of exec entries stands for.
pub open spec fn entries_view(v: Seq<(String, Vec<String>)>) -> Seq<TagEntryM> {
    Seq::new(v.len(), |i: int| (v[i].0@, v[i].1.deep_view()))
}

impl View for TagMap {
    type V = Seq<TagEntryM>;

    open spec fn view(&self) -> Seq<TagEntryM> {
        entries_view(self.entries@)
    }
}

impl TagMap {
    /// Folder keys are pairwise distinct.
    pub open spec fn wf(&self) -> bool {
        distinct_keys(self@)
    }

    /// The empty mapping.
    pub fn new() -> (r: TagMap)
        ensures
            r@ == Seq::<TagEntryM>::empty(),
            r.wf(),
    {
        let r = TagMap { entries: Vec::new() };
        proof {
            assert(r@ =~= Seq::<TagEntryM>::empty());
        }
        r
    }
}

/// Executable [`str_items`].
#[verifier::rlimit(100)]
#[verifier::spinoff_prover]
fn str_items_exec(s: &Vec<char>, i: usize) -> (r: Option<(Vec<String>, usize)>)
    requires
        i <= s.len(),
    ensures
        match r {
            Some((v, j)) => i < j <= s.len() && str_items(s@.skip(i as int)) == Some(
                (v.deep_view(), (j - i) as nat),
            ),
            None => str_items(s@.skip(i as int)) is None,
        },
    decreases s.len() - i,
{
    let ghost ss = s@.skip(i as int);
    proof {
        assert(ss.len() == s.len() - i);
    }
    if i < s.len() && s[i] == '"' {
        proof {
            assert(ss[0] == s@[i as int]);
            lemma_skip_skip(s@, i as int, 1);
        }
        match scan_string(s, i + 1) {
            Some((t, i1)) => {
                proof {
                    lemma_skip_skip(s@, i as int, i1 - i);
                }
                let i2 = skip_ws(s, i1);
                let item = chars_to_string(&t);
                if i2 < s.len() && s[i2] == ',' {
                    proof {
                        assert(ss[i2 - i] == s@[i2 as int]);
                        lemma_skip_skip(s@, i as int, i2 + 1 - i);
                    }
                    let i3 = skip_ws(s, i2 + 1);
                    proof {
                        lemma_skip_skip(s@, i as int, i3 - i);
                    }
                    match str_items_exec(s, i3) {
                        Some((v, j)) => {
                            let ghost rdv = v.deep_view();
                            let mut v = v;
                            let mut out: Vec<String> = Vec::new();
                            out.push(item);
                            out.append(&mut v);
                            proof {
                                assert(out.deep_view() =~= seq![t@] + rdv);
                            }
                            Some((out, j))
                        },
                        None => None,
                    }
                } else if i2 < s.len() && s[i2] == ']' {
                    proof {
                        assert(ss[i2 - i] == s@[i2 as int]);
                    }
                    let mut out: Vec<String> = Vec::new();
                    out.push(item);
                    proof {
                        assert(out.deep_view() =~= seq![t@]);
                    }
                    Some((out, i2 + 1))
                } else {
                    proof {
                        if i2 < s.len() {
                            assert(ss[i2 - i] == s@[i2 as int]);
                        }
                    }
                    None
                }
            },
            None => None,
        }
    } else {
        proof {
            if i < s.len() {
                assert(ss[0] == s@[i as int]);
            }
        }
        None
    }
}

/// Executable [`str_array`].
#[verifier::rlimit(100)]
#[verifier::spinoff_prover]
fn str_array_exec(s: &Vec<char>, i: usize) -> (r: Option<(Vec<String>, usize)>)
    requires
        i <= s.len(),
    ensures
        match r {
            Some((v, j)) => i < j <= s.len() && str_array(s@.skip(i as int)) == Some(
                (v.deep_view(), (j - i) as nat),
            ),
            None => str_array(s@.skip(i as int)) is None,
        },
{
    let ghost ss = s@.skip(i as int);
    proof {
        assert(ss.len() == s.len() - i);
    }
    if i < s.len() && s[i] == '[' {
        proof {
            assert(ss[0] == s@[i as int]);
            lemma_skip_skip(s@, i as int, 1);
        }
        let w = skip_ws(s, i + 1);
        if w < s.len() {
            proof {
                assert(ss[w - i] == s@[w as int]);
                lemma_skip_skip(s@, i as int, w - i);
            }
            if s[w] == ']' {
                let out: Vec<String> = Vec::new();
                proof {
                    assert(out.deep_view() =~= Seq::<Seq<char>>::empty());
                }
                Some((out, w + 1))
            } else {
                match str_items_exec(s, w) {
                    Some((v, j)) => Some((v, j)),
                    None => None,
                }
            }
        } else {
            None
        }
    } else {
        proof {
            if i < s.len() {
                assert(ss[0] == s@[i as int]);
            }
        }
        None
    }
}

/// Executable [`tag_members`].
#[verifier::rlimit(100)]
#[verifier::spinoff_prover]
fn tag_members_exec(s: &Vec<char>, i: usize) -> (r: Option<(Vec<(String, Vec<String>)>, usize)>)
    requires
        i <= s.len(),
    ensures
        match r {
            Some((v, j)) => i < j <= s.len() && tag_members(s@.skip(i as int)) == Some(
                (entries_view(v@), (j - i) as nat),
            ),
            None => tag_members(s@.skip(i as int)) is None,
        },
    decreases s.len() - i,
{
    let ghost ss = s@.skip(i as int);
    proof {
        assert(ss.len() == s.len() - i);
    }
    if i < s.len() && s[i] == '"' {
        proof {
            assert(ss[0] == s@[i as int]);
            lemma_skip_skip(s@, i as int, 1);
        }
        match scan_string(s, i + 1) {
            Some((k, i1)) => {
                proof {
                    lemma_skip_skip(s@, i as int, i1 - i);
                }
                let i2 = skip_ws(s, i1);
                if i2 < s.len() && s[i2] == ':' {
                    proof {
                        assert(ss[i2 - i] == s@[i2 as int]);
                        lemma_skip_skip(s@, i as int, i2 + 1 - i);
                    }
                    let i3 = skip_ws(s, i2 + 1);
                    proof {
                        lemma_skip_skip(s@, i as int, i3 - i);
                    }
                    match str_array_exec(s, i3) {
                        Some((tl, i4)) => {
                            let entry = (chars_to_string(&k), tl);
                            proof {
                                lemma_skip_skip(s@, i as int, i4 - i);
                            }
                            let i5 = skip_ws(s, i4);
                            if i5 < s.len() && s[i5] == ',' {
                                proof {
                                    assert(ss[i5 - i] == s@[i5 as int]);
                                    lemma_skip_skip(s@, i as int, i5 + 1 - i);
                                }
                                let i6 = skip_ws(s, i5 + 1);
                                proof {
                                    lemma_skip_skip(s@, i as int, i6 - i);
                                }
                                match tag_members_exec(s, i6) {
                                    Some((v, j)) => {
                                        let ghost rdv = entries_view(v@);
                                        let ghost ev = (entry.0@, entry.1.deep_view());
                                        let mut v = v;
                                        let mut out: Vec<(String, Vec<String>)> = Vec::new();
                                        out.push(entry);
                                        out.append(&mut v);
                                        proof {
                                            assert(entries_view(out@) =~= seq![ev] + rdv);
                                        }
                                        Some((out, j))
                                    },
                                    None => None,
                                }
                            } else if i5 < s.len() && s[i5] == '}' {
                                proof {
                                    assert(ss[i5 - i] == s@[i5 as int]);
                                }
                                let ghost ev = (entry.0@, entry.1.deep_view());
                                let mut out: Vec<(String, Vec<String>)> = Vec::new();
                                out.push(entry);
                                proof {
                                    assert(entries_view(out@) =~= seq![ev]);
                                }
                                Some((out, i5 + 1))
                            } else {
                                proof {
                                    if i5 < s.len() {
                                        assert(ss[i5 - i] == s@[i5 as int]);
                                    }
                                }
                                None
                            }
                        },
                        None => None,
                    }
                } else {
                    proof {
                        if i2 < s.len() {
                            assert(ss[i2 - i] == s@[i2 as int]);
                        }
                    }
                    None
                }
            },
            None => None,
        }
    } else {
        proof {
            if i < s.len() {
                assert(ss[0] == s@[i as int]);
            }
        }
        None
    }
}

/// First entry whose key equals `k`.
#[verifier::rlimit(100)]
#[verifier::spinoff_prover]
fn tfind(es: &Vec<(String, Vec<String>)>, k: &String) -> (r: Option<usize>)
    ensures
        match r {
            Some(x) => x < es.len() && tidx_of(entries_view(es@), k@) == x as int,
            None => tidx_of(entries_view(es@), k@) < 0,
        },
{
    let n = es.len();
    let mut x: usize = 0;
    while x < n
        invariant
            n == es.len(),
            x <= n,
            forall|j: int| 0 <= j < x ==> entries_view(es@)[j].0 != k@,
        decreases n - x,
    {
        if es[x].0.eq(k) {
            proof {
                assert(entries_view(es@)[x as int].0 == k@);
                lemma_tidx_of(entries_view(es@), k@);
            }
            return Some(x);
        }
        proof {
            assert(entries_view(es@)[x as int].0 == es@[x as int].0@);
        }
        x = x + 1;
    }
    proof {
        lemma_tidx_of(entries_view(es@), k@);
    }
    None
}

/// Inserts an entry as [`tupsert`] describes.
#[verifier::rlimit(100)]
#[verifier::spinoff_prover]
fn tpush(tm: &mut TagMap, e: (String, Vec<String>))
    ensures
        final(tm)@ == tupsert(old(tm)@, (e.0@, e.1.deep_view())),
{
    let ghost odv = tm@;
    let ghost ev = (e.0@, e.1.deep_view());
    match tfind(&tm.entries, &e.0) {
        Some(x) => {
            tm.entries.set(x, e);
            proof {
                assert(tm@ =~= odv.update(tidx_of(odv, ev.0), ev));
            }
        },
        None => {
            tm.entries.push(e);
            proof {
                assert(tm@ =~= odv.push(ev));
            }
        },
    }
}

/// Merges raw entries, later duplicates winning, as [`dedup_tags`] describes.
#[verifier::rlimit(100)]
#[verifier::spinoff_prover]
fn dedup_exec(raw: Vec<(String, Vec<String>)>) -> (r: TagMap)
    ensures
        r@ == dedup_tags(entries_view(raw@)),
        r.wf(),
{
    let mut raw = raw;
    let ghost rdv = entries_view(raw@);
    let n = raw.len();
    let mut out = TagMap::new();
    let mut mi: usize = 0;
    proof {
        assert(entries_view(raw@) =~= rdv.skip(0));
        assert(rdv.take(0) =~= Seq::<TagEntryM>::empty());
    }
    while mi < n
        invariant
            n == rdv.len(),
            mi <= n,
            raw.len() == n - mi,
            entries_view(raw@) == rdv.skip(mi as int),
            out@ == dedup_tags(rdv.take(mi as int)),
        decreases n - mi,
    {
        let ghost ov = raw@;
        let e = raw.remove(0);
        proof {
            assert((e.0@, e.1.deep_view()) == entries_view(ov)[0]);
            assert((e.0@, e.1.deep_view()) == rdv[mi as int]);
            assert(raw@ =~= ov.skip(1));
            assert forall|j: int| 0 <= j < entries_view(raw@).len() implies entries_view(raw@)[j]
                == rdv.skip(mi + 1)[j] by {
                assert(entries_view(raw@)[j] == (raw@[j].0@, raw@[j].1.deep_view()));
                assert(raw@[j] == ov[j + 1]);
                assert(entries_view(ov)[j + 1] == (ov[j + 1].0@, ov[j + 1].1.deep_view()));
                assert(entries_view(ov) == rdv.skip(mi as int));
                assert(rdv.skip(mi + 1)[j] == rdv[mi + 1 + j]);
                assert(rdv.skip(mi as int)[j + 1] == rdv[mi + 1 + j]);
            }
            assert(entries_view(raw@) =~= rdv.skip(mi + 1));
        }
        let ghost odv = out@;
        tpush(&mut out, e);
        proof {
            assert(rdv.take(mi + 1).drop_last() =~= rdv.take(mi as int));
            assert(rdv.take(mi + 1).last() == rdv[mi as int]);
            assert(dedup_tags(rdv.take(mi + 1)) == tupsert(odv, rdv[mi as int]));
        }
        mi = mi + 1;
    }
    proof {
        assert(rdv.take(n as int) =~= rdv);
        lemma_dedup_tags_distinct(rdv);
    }
    out
}

/// Reads a tag-store document.
///
/// Succeeds exactly when the content is a JSON object mapping folder names
/// to arrays of strings; repeated folder keys keep the later entry.
#[verifier::rlimit(100)]
#[verifier::spinoff_prover]
pub fn parse_tags(content: &str) -> (r: Result<TagMap, ParseError>)
    ensures
        match r {
            Ok(tm) => spec_tags(content@) == Some(tm@) && tm.wf(),
            Err(_) => spec_tags(content@) is None,
        },
{
    let s = str_to_chars(content);
    proof {
        assert(s@.skip(0) =~= s@);
    }
    let w = skip_ws(&s, 0);
    if w < s.len() && s[w] == '{' {
        let i = skip_ws(&s, w + 1);
        if i < s.len() && s[i] == '}' {
            let z = skip_ws(&s, i + 1);
            if z == s.len() {
                Ok(TagMap::new())
            } else {
                Err(ParseError)
            }
        } else if i < s.len() {
            match tag_members_exec(&s, i) {
                Some((v, j)) => {
                    let z = skip_ws(&s, j);
                    if z == s.len() {
                        Ok(dedup_exec(v))
                    } else {
                        Err(ParseError)
                    }
                },
                None => Err(ParseError),
            }
        } else {
            Err(ParseError)
        }
    } else {
        Err(ParseError)
    }
}

/// Reads the tag store from the backing file's content, `None` standing for
/// a file that does not exist: the mapping is then empty, and that is no
/// error.
#[verifier::rlimit(100)]
#[verifier::spinoff_prover]
pub fn load_tags(content: Option<&str>) -> (r: Result<TagMap, ParseError>)
    ensures
        match content {
            None => r matches Ok(tm) && tm@ == Seq::<TagEntryM>::empty() && tm.wf(),
            Some(c) => match r {
                Ok(tm) => spec_tags(c@) == Some(tm@) && tm.wf(),
                Err(_) => spec_tags(c@) is None,
            },
        },
{
    match content {
        None => Ok(TagMap::new()),
        Some(c) => parse_tags(c),
    }
}

// ---------------------------------------------------------------------------
// Writing the tag store: pretty-printed JSON, two-space indentation, the
// mandatory escapes and `\u00XX` for other control characters.
// ---------------------------------------------------------------------------

/// The character for a hexadecimal digit value (lower case).
pub open spec fn hex_char(v: int) -> char {
    if v < 10 {
        ((0x30 + v) as u32) as char
    } else {
        ((0x57 + v) as u32) as char
    }
}

/// How one character is written inside a string literal.
pub open spec fn esc_char(c: char) -> Seq<char> {
    if c == '"' {
        seq!['\\', '"']
    } else if c == '\\' {
        seq!['\\', '\\']
    } else if c == '\u{0008}' {
        seq!['\\', 'b']
    } else if c == '\u{000C}' {
        seq!['\\', 'f']
    } else if c == '\n' {
        seq!['\\', 'n']
    } else if c == '\r' {
        seq!['\\', 'r']
    } else if c == '\t' {
        seq!['\\', 't']
    } else if (c as u32) < 0x20 {
        seq!['\\', 'u', '0', '0', hex_char(c as u32 as int / 16), hex_char(c as u32 as int % 16)]
    } else {
        seq![c]
    }
}

/// A string's characters, escaped.
pub open spec fn esc_body(t: Seq<char>) -> Seq<char>
    decreases t.len(),
{
    if t.len() == 0 {
        Seq::empty()
    } else {
        esc_char(t[0]) + esc_body(t.drop_first())
    }
}

/// A string literal: quoted, escaped content.
pub open spec fn quoted(t: Seq<char>) -> Seq<char> {
    seq!['"'] + esc_body(t) + seq!['"']
}

/// The written array after its first element: each further element on its
/// own line, then the closing bracket.
pub open spec fn arr_rest(l: Seq<Seq<char>>) -> Seq<char>
    decreases l.len(),
{
    if l.len() == 0 {
        seq!['\n', ' ', ' ', ']']
    } else {
        seq![',', '\n', ' ', ' ', ' ', ' '] + quoted(l[0]) + arr_rest(l.drop_first())
    }
}

/// The written tag array.
pub open spec fn ser_arr(l: Seq<Seq<char>>) -> Seq<char> {
    if l.len() == 0 {
        seq!['[', ']']
    } else {
        seq!['[', '\n', ' ', ' ', ' ', ' '] + quoted(l[0]) + arr_rest(l.drop_first())
    }
}

/// The written object after its first member.
pub open spec fn obj_rest(es: Seq<TagEntryM>) -> Seq<char>
    decreases es.len(),
{
    if es.len() == 0 {
        seq!['\n', '}']
    } else {
        seq![',', '\n', ' ', ' '] + quoted(es[0].0) + seq![':', ' '] + ser_arr(es[0].1) + obj_rest(
            es.drop_first(),
        )
    }
}

/// The whole written tag-store document.
pub open spec fn spec_save_tags(es: Seq<TagEntryM>) -> Seq<char> {
    if es.len() == 0 {
        seq!['{', '}']
    } else {
        seq!['{', '\n', ' ', ' '] + quoted(es[0].0) + seq![':', ' '] + ser_arr(es[0].1) + obj_rest(
            es.drop_first(),
        )
    }
}

#[verifier::rlimit(100)]
#[verifier::spinoff_prover]
fn hex_char_exec(v: u32) -> (c: char)
    requires
        v < 16,
    ensures
        c == hex_char(v as int),
{
    if v < 10 {
        (0x30 + v as u8) as char
    } else {
        (0x57 + v as u8) as char
    }
}

#[verifier::rlimit(100)]
#[verifier::spinoff_prover]
fn push_esc(out: &mut Vec<char>, c: char)
    ensures
        final(out)@ == old(out)@ + esc_char(c),
{
    if c == '"' {
        out.push('\\');
        out.push('"');
        proof {
            assert(out@ =~= old(out)@ + esc_char(c));
        }
    } else if c == '\\' {
        out.push('\\');
        out.push('\\');
        proof {
            assert(out@ =~= old(out)@ + esc_char(c));
        }
    } else if c == '\u{0008}' {
        out.push('\\');
        out.push('b');
        proof {
            assert(out@ =~= old(out)@ + esc_char(c));
        }
    } else if c == '\u{000C}' {
        out.push('\\');
        out.push('f');
        proof {
            assert(out@ =~= old(out)@ + esc_char(c));
        }
    } else if c == '\n' {
        out.push('\\');
        out.push('n');
        proof {
            assert(out@ =~= old(out)@ + esc_char(c));
        }
    } else if c == '\r' {
        out.push('\\');
        out.push('r');
        proof {
            assert(out@ =~= old(out)@ + esc_char(c));
        }
    } else if c == '\t' {
        out.push('\\');
        out.push('t');
        proof {
            assert(out@ =~= old(out)@ + esc_char(c));
        }
    } else {
        let u = c as u32;
        if u < 0x20 {
            out.push('\\');
            out.push('u');
            out.push('0');
            out.push('0');
            out.push(hex_char_exec(u / 16));
            out.push(hex_char_exec(u % 16));
            proof {
                assert(out@ =~= old(out)@ + esc_char(c));
            }
        } else {
            out.push(c);
            proof {
                assert(out@ =~= old(out)@ + esc_char(c));
            }
        }
    }
}

#[verifier::rlimit(100)]
#[verifier::spinoff_prover]
fn push_esc_body(out: &mut Vec<char>, cs: &Vec<char>, k: usize)
    requires
        k <= cs.len(),
    ensures
        final(out)@ == old(out)@ + esc_body(cs@.skip(k as int)),
    decreases cs.len() - k,
{
    if k < cs.len() {
        push_esc(out, cs[k]);
        push_esc_body(out, cs, k + 1);
        proof {
            assert(cs@.skip(k as int)[0] == cs@[k as int]);
            assert(cs@.skip(k as int).drop_first() =~= cs@.skip(k + 1));
            assert(out@ =~= old(out)@ + esc_body(cs@.skip(k as int)));
        }
    } else {
        proof {
            assert(cs@.skip(k as int).len() == 0);
            assert(out@ =~= old(out)@ + esc_body(cs@.skip(k as int)));
        }
    }
}

#[verifier::rlimit(100)]
#[verifier::spinoff_prover]
fn push_quoted(out: &mut Vec<char>, sv: &String)
    ensures
        final(out)@ == old(out)@ + quoted(sv@),
{
    out.push('"');
    let cs = str_to_chars(sv.as_str());
    proof {
        assert(cs@.skip(0) =~= cs@);
    }
    push_esc_body(out, &cs, 0);
    out.push('"');
    proof {
        assert(out@ =~= old(out)@ + quoted(sv@));
    }
}

#[verifier::rlimit(100)]
#[verifier::spinoff_prover]
fn push_arr_rest(out: &mut Vec<char>, l: &Vec<String>, k: usize)
    requires
        k <= l.len(),
    ensures
        final(out)@ == old(out)@ + arr_rest(l.deep_view().skip(k as int)),
    decreases l.len() - k,
{
    if k < l.len() {
        out.push(',');
        out.push('\n');
        out.push(' ');
        out.push(' ');
        out.push(' ');
        out.push(' ');
        push_quoted(out, &l[k]);
        push_arr_rest(out, l, k + 1);
        proof {
            assert(l.deep_view().skip(k as int)[0] == l@[k as int]@);
            assert(l.deep_view().skip(k as int).drop_first() =~= l.deep_view().skip(k + 1));
            assert(out@ =~= old(out)@ + arr_rest(l.deep_view().skip(k as int)));
        }
    } else {
        out.push('\n');
        out.push(' ');
        out.push(' ');
        out.push(']');
        proof {
            assert(l.deep_view().skip(k as int).len() == 0);
            assert(out@ =~= old(out)@ + arr_rest(l.deep_view().skip(k as int)));
        }
    }
}

#[verifier::rlimit(100)]
#[verifier::spinoff_prover]
fn push_arr(out: &mut Vec<char>, l: &Vec<String>)
    ensures
        final(out)@ == old(out)@ + ser_arr(l.deep_view()),
{
    if l.len() == 0 {
        out.push('[');
        out.push(']');
        proof {
            assert(out@ =~= old(out)@ + ser_arr(l.deep_view()));
        }
    } else {
        out.push('[');
        out.push('\n');
        out.push(' ');
        out.push(' ');
        out.push(' ');
        out.push(' ');
        push_quoted(out, &l[0]);
        push_arr_rest(out, l, 1);
        proof {
            assert(l.deep_view()[0] == l@[0]@);
            assert(l.deep_view().drop_first() =~= l.deep_view().skip(1));
            assert(out@ =~= old(out)@ + ser_arr(l.deep_view()));
        }
    }
}

#[verifier::rlimit(100)]
#[verifier::spinoff_prover]
fn push_obj_rest(out: &mut Vec<char>, es: &Vec<(String, Vec<String>)>, k: usize)
    requires
        k <= es.len(),
    ensures
        final(out)@ == old(out)@ + obj_rest(entries_view(es@).skip(k as int)),
    decreases es.len() - k,
{
    if k < es.len() {
        out.push(',');
        out.push('\n');
        out.push(' ');
        out.push(' ');
        push_quoted(out, &es[k].0);
        out.push(':');
        out.push(' ');
        push_arr(out, &es[k].1);
        push_obj_rest(out, es, k + 1);
        proof {
            assert(entries_view(es@).skip(k as int)[0] == entries_view(es@)[k as int]);
            assert(entries_view(es@).skip(k as int).drop_first() =~= entries_view(es@).skip(k + 1));
            assert(out@ =~= old(out)@ + obj_rest(entries_view(es@).skip(k as int)));
        }
    } else {
        out.push('\n');
        out.push('}');
        proof {
            assert(entries_view(es@).skip(k as int).len() == 0);
            assert(out@ =~= old(out)@ + obj_rest(entries_view(es@).skip(k as int)));
        }
    }
}

/// Writes the mapping as the tag-store file's content: a pretty-printed JSON
/// object, one member per folder, each value the array of its tags.
#[verifier::rlimit(100)]
#[verifier::spinoff_prover]
pub fn save_tags(tm: &TagMap) -> (r: String)
    ensures
        r@ == spec_save_tags(tm@),
{
    let mut out: Vec<char> = Vec::new();
    if tm.entries.len() == 0 {
        out.push('{');
        out.push('}');
        proof {
            assert(out@ =~= spec_save_tags(tm@));
        }
    } else {
        out.push('{');
        out.push('\n');
        out.push(' ');
        out.push(' ');
        push_quoted(&mut out, &tm.entries[0].0);
        out.push(':');
        out.push(' ');
        push_arr(&mut out, &tm.entries[0].1);
        push_obj_rest(&mut out, &tm.entries, 1);
        proof {
            assert(tm@[0] == (tm.entries@[0].0@, tm.entries@[0].1.deep_view()));
            assert(tm@.drop_first() =~= tm@.skip(1));
            assert(out@ =~= spec_save_tags(tm@));
        }
    }
    chars_to_string(&out)
}

// ---------------------------------------------------------------------------
// The round-trip law: loading what was saved returns the mapping unchanged.
// ---------------------------------------------------------------------------

#[verifier::rlimit(100)]
#[verifier::spinoff_prover]
proof fn lemma_ws1(x: Seq<char>)
    requires
        x.len() > 0,
        !is_ws(x[0]),
    ensures
        ws_len(seq!['\n'] + x) == 1,
{
    let w = seq!['\n'] + x;
    assert(w[0] == '\n');
    assert(w.skip(1) =~= x);
    assert(ws_len(x) == 0);
}

#[verifier::rlimit(100)]
#[verifier::spinoff_prover]
proof fn lemma_wsp(x: Seq<char>)
    requires
        x.len() > 0,
        !is_ws(x[0]),
    ensures
        ws_len(seq![' '] + x) == 1,
{
    let w = seq![' '] + x;
    assert(w[0] == ' ');
    assert(w.skip(1) =~= x);
    assert(ws_len(x) == 0);
}

#[verifier::rlimit(100)]
#[verifier::spinoff_prover]
proof fn lemma_ws3(x: Seq<char>)
    requires
        x.len() > 0,
        !is_ws(x[0]),
    ensures
        ws_len(seq!['\n', ' ', ' '] + x) == 3,
{
    let w = seq!['\n', ' ', ' '] + x;
    assert(ws_len(seq![' '] + x) == 1) by {
        lemma_wsp(x);
    }
    assert(w.skip(1) =~= seq![' ', ' '] + x);
    assert((seq![' ', ' '] + x).skip(1) =~= seq![' '] + x);
    assert((seq![' ', ' '] + x)[0] == ' ');
    assert(ws_len(seq![' ', ' '] + x) == 2);
    assert(w[0] == '\n');
}

#[verifier::rlimit(100)]
#[verifier::spinoff_prover]
proof fn lemma_ws5(x: Seq<char>)
    requires
        x.len() > 0,
        !is_ws(x[0]),
    ensures
        ws_len(seq!['\n', ' ', ' ', ' ', ' '] + x) == 5,
{
    let w1 = seq![' '] + x;
    let w2 = seq![' ', ' '] + x;
    let w3 = seq![' ', ' ', ' '] + x;
    let w4 = seq![' ', ' ', ' ', ' '] + x;
    let w5 = seq!['\n', ' ', ' ', ' ', ' '] + x;
    lemma_wsp(x);
    assert(w2[0] == ' ');
    assert(w2.skip(1) =~= w1);
    assert(ws_len(w2) == 2);
    assert(w3[0] == ' ');
    assert(w3.skip(1) =~= w2);
    assert(ws_len(w3) == 3);
    assert(w4[0] == ' ');
    assert(w4.skip(1) =~= w3);
    assert(ws_len(w4) == 4);
    assert(w5[0] == '\n');
    assert(w5.skip(1) =~= w4);
    assert(ws_len(w5) == 5);
}

#[verifier::rlimit(100)]
#[verifier::spinoff_prover]
proof fn lemma_hex_char(v: int)
    requires
        0 <= v < 16,
    ensures
        is_hex(hex_char(v)),
        hex_digit_val(hex_char(v)) == v,
{
    if v < 10 {
        assert(hex_char(v) as u32 == 0x30 + v);
    } else {
        assert(hex_char(v) as u32 == 0x57 + v);
    }
}

/// A written string literal's body parses back to the original characters.
#[verifier::rlimit(100)]
#[verifier::spinoff_prover]
proof fn lemma_esc_parse(t: Seq<char>, rest: Seq<char>)
    ensures
        str_body(esc_body(t) + seq!['"'] + rest) == Some((t, (esc_body(t).len() + 1) as nat)),
    decreases t.len(),
{
    let s = esc_body(t) + seq!['"'] + rest;
    if t.len() == 0 {
        assert(s =~= seq!['"'] + rest);
        assert(s[0] == '"');
        assert(t =~= Seq::<char>::empty());
    } else {
        let c = t[0];
        let tp = t.drop_first();
        let b = esc_body(tp) + seq!['"'] + rest;
        lemma_esc_parse(tp, rest);
        let nb = (esc_body(tp).len() + 1) as nat;
        assert(esc_body(t) == esc_char(c) + esc_body(tp));
        assert(s =~= esc_char(c) + b);
        assert(seq![c] + tp =~= t);
        if c == '"' || c == '\\' || c == '\u{0008}' || c == '\u{000C}' || c == '\n' || c == '\r'
            || c == '\t' {
            assert(s[0] == '\\');
            assert(s[1] == esc_char(c)[1]);
            assert(s.skip(2) =~= b);
            assert(simple_unescape(esc_char(c)[1]) == Some(c));
            assert(str_body(s) == Some((t, (2 + nb) as nat)));
        } else if (c as u32) < 0x20 {
            let u = c as u32;
            lemma_hex_char(u as int / 16);
            lemma_hex_char(u as int % 16);
            assert(s[0] == '\\');
            assert(s[1] == 'u');
            assert(s[2] == '0');
            assert(s[3] == '0');
            assert(s[4] == hex_char(u as int / 16));
            assert(s[5] == hex_char(u as int % 16));
            assert(u as int / 16 * 16 + u as int % 16 == u as int) by (nonlinear_arith);
            assert(crate::json::hex4_val(s[2], s[3], s[4], s[5]) == u as int);
            assert(s.skip(6) =~= b);
            vstd::utf8::char_u32_cast(c, u);
            assert(str_body(s) == Some((t, (6 + nb) as nat)));
        } else {
            assert(esc_char(c) =~= seq![c]);
            assert(s[0] == c);
            assert(s.skip(1) =~= b);
            assert(str_body(s) == Some((t, (1 + nb) as nat)));
        }
    }
}

/// A written item list parses back to the original strings.
#[verifier::rlimit(100)]
#[verifier::spinoff_prover]
proof fn lemma_items_parse(l: Seq<Seq<char>>, rest: Seq<char>)
    requires
        l.len() > 0,
    ensures
        str_items(quoted(l[0]) + arr_rest(l.drop_first()) + rest) == Some(
            (l, (quoted(l[0]).len() + arr_rest(l.drop_first()).len()) as nat),
        ),
    decreases l.len(),
{
    let lp = l.drop_first();
    let s = quoted(l[0]) + arr_rest(lp) + rest;
    assert(s[0] == '"');
    assert(s.skip(1) =~= esc_body(l[0]) + seq!['"'] + (arr_rest(lp) + rest));
    lemma_esc_parse(l[0], arr_rest(lp) + rest);
    let i1 = quoted(l[0]).len();
    assert(s.skip(i1 as int) =~= arr_rest(lp) + rest);
    if lp.len() == 0 {
        assert(arr_rest(lp) == seq!['\n', ' ', ' ', ']']);
        assert(s.skip(i1 as int) =~= seq!['\n', ' ', ' '] + (seq![']'] + rest));
        lemma_ws3(seq![']'] + rest);
        assert(s[i1 + 3 as int] == ']');
        assert(l =~= seq![l[0]]);
        assert(str_items(s) == Some((l, (i1 + 4) as nat)));
    } else {
        assert(arr_rest(lp) == seq![',', '\n', ' ', ' ', ' ', ' '] + quoted(lp[0]) + arr_rest(
            lp.drop_first(),
        ));
        assert(s.skip(i1 as int)[0] == ',');
        assert(ws_len(s.skip(i1 as int)) == 0);
        assert(s[i1 as int] == ',');
        let tail = quoted(lp[0]) + arr_rest(lp.drop_first()) + rest;
        assert(tail[0] == '"');
        assert(s.skip(i1 + 1 as int) =~= seq!['\n', ' ', ' ', ' ', ' '] + tail);
        lemma_ws5(tail);
        let i3 = i1 + 6;
        assert(s.skip(i3 as int) =~= tail);
        lemma_items_parse(lp, rest);
        assert(seq![l[0]] + lp =~= l);
        assert(str_items(s) == Some(
            (l, (i3 + quoted(lp[0]).len() + arr_rest(lp.drop_first()).len()) as nat),
        ));
    }
}

/// A written array parses back to the original strings.
#[verifier::rlimit(100)]
#[verifier::spinoff_prover]
proof fn lemma_array_parse(v: Seq<Seq<char>>, rest: Seq<char>)
    ensures
        str_array(ser_arr(v) + rest) == Some((v, ser_arr(v).len() as nat)),
{
    let s = ser_arr(v) + rest;
    if v.len() == 0 {
        assert(s[0] == '[');
        assert(s.skip(1) =~= seq![']'] + rest);
        assert((seq![']'] + rest)[0] == ']');
        assert(ws_len(s.skip(1)) == 0);
        assert(s[1] == ']');
        assert(str_array(s) == Some((v, 2 as nat)));
    } else {
        assert(s[0] == '[');
        let tail = quoted(v[0]) + arr_rest(v.drop_first()) + rest;
        assert(tail[0] == '"');
        assert(s.skip(1) =~= seq!['\n', ' ', ' ', ' ', ' '] + tail);
        lemma_ws5(tail);
        assert(s[6] == '"');
        assert(s.skip(6) =~= tail);
        lemma_items_parse(v, rest);
        assert(str_array(s) == Some(
            (v, (6 + quoted(v[0]).len() + arr_rest(v.drop_first()).len()) as nat),
        ));
    }
}

/// Facts about a written member's front: key, colon, one space, value.
#[verifier::rlimit(100)]
#[verifier::spinoff_prover]
proof fn lemma_member_prefix(k: Seq<char>, v: Seq<Seq<char>>, tail: Seq<char>)
    ensures
        ({
            let s = quoted(k) + seq![':', ' '] + ser_arr(v) + tail;
            let i1 = quoted(k).len() as int;
            &&& s[0] == '"'
            &&& str_body(s.skip(1)) == Some((k, (esc_body(k).len() + 1) as nat))
            &&& quoted(k).len() == esc_body(k).len() + 2
            &&& ws_len(s.skip(i1)) == 0
            &&& s[i1] == ':'
            &&& ws_len(s.skip(i1 + 1)) == 1
            &&& str_array(s.skip(i1 + 2)) == Some((v, ser_arr(v).len() as nat))
            &&& s.skip(i1 + 2 + ser_arr(v).len()) == tail
        }),
{
    let s = quoted(k) + seq![':', ' '] + ser_arr(v) + tail;
    let i1 = quoted(k).len() as int;
    assert(s[0] == '"');
    assert(s.skip(1) =~= esc_body(k) + seq!['"'] + (seq![':', ' '] + ser_arr(v) + tail));
    lemma_esc_parse(k, seq![':', ' '] + ser_arr(v) + tail);
    assert(s.skip(i1) =~= seq![':', ' '] + ser_arr(v) + tail);
    assert(s.skip(i1)[0] == ':');
    assert(ws_len(s.skip(i1)) == 0);
    assert(s[i1] == ':');
    let atail = ser_arr(v) + tail;
    assert(atail[0] == '[');
    assert(s.skip(i1 + 1) =~= seq![' '] + atail);
    lemma_wsp(atail);
    lemma_array_parse(v, tail);
    assert(s.skip(i1 + 2) =~= atail);
    assert(s.skip(i1 + 2 + ser_arr(v).len()) =~= tail);
}

/// How [`tag_members`] evaluates on a member followed by a closing brace,
/// stated over symbolic positions.
#[verifier::rlimit(100)]
#[verifier::spinoff_prover]
proof fn lemma_tag_members_last(s: Seq<char>, k: Seq<char>, nk: nat, l: Seq<Seq<char>>, nv: nat)
    requires
        s.len() > 0,
        s[0] == '"',
        str_body(s.skip(1)) == Some((k, nk)),
        1 + nk <= s.len(),
        ws_len(s.skip((1 + nk) as int)) == 0,
        1 + nk < s.len(),
        s[(1 + nk) as int] == ':',
        ws_len(s.skip((2 + nk) as int)) == 1,
        3 + nk <= s.len(),
        str_array(s.skip((3 + nk) as int)) == Some((l, nv)),
        3 + nk + nv <= s.len(),
        ws_len(s.skip((3 + nk + nv) as int)) == 1,
        4 + nk + nv < s.len(),
        s[(4 + nk + nv) as int] == '}',
    ensures
        tag_members(s) == Some((seq![(k, l)], (5 + nk + nv) as nat)),
{
}

/// How [`tag_members`] evaluates on a member followed by a comma and more
/// members, stated over symbolic positions.
#[verifier::rlimit(100)]
#[verifier::spinoff_prover]
proof fn lemma_tag_members_cons(
    s: Seq<char>,
    k: Seq<char>,
    nk: nat,
    l: Seq<Seq<char>>,
    nv: nat,
    es2: Seq<TagEntryM>,
    n2: nat,
)
    requires
        s.len() > 0,
        s[0] == '"',
        str_body(s.skip(1)) == Some((k, nk)),
        1 + nk <= s.len(),
        ws_len(s.skip((1 + nk) as int)) == 0,
        1 + nk < s.len(),
        s[(1 + nk) as int] == ':',
        ws_len(s.skip((2 + nk) as int)) == 1,
        3 + nk <= s.len(),
        str_array(s.skip((3 + nk) as int)) == Some((l, nv)),
        3 + nk + nv <= s.len(),
        ws_len(s.skip((3 + nk + nv) as int)) == 0,
        3 + nk + nv < s.len(),
        s[(3 + nk + nv) as int] == ',',
        ws_len(s.skip((4 + nk + nv) as int)) == 3,
        7 + nk + nv <= s.len(),
        tag_members(s.skip((7 + nk + nv) as int)) == Some((es2, n2)),
    ensures
        tag_members(s) == Some((seq![(k, l)] + es2, (7 + nk + nv + n2) as nat)),
{
}

/// A single written member, closing brace behind it, parses back.
#[verifier::rlimit(100)]
#[verifier::spinoff_prover]
proof fn lemma_members_single(es: Seq<TagEntryM>, rest: Seq<char>)
    requires
        es.len() == 1,
    ensures
        tag_members(
            quoted(es[0].0) + seq![':', ' '] + ser_arr(es[0].1) + obj_rest(es.drop_first()) + rest,
        ) == Some(
            (
                es,
                (quoted(es[0].0).len() + 2 + ser_arr(es[0].1).len() + obj_rest(
                    es.drop_first(),
                ).len()) as nat,
            ),
        ),
{
    let ep = es.drop_first();
    let s = quoted(es[0].0) + seq![':', ' '] + ser_arr(es[0].1) + obj_rest(ep) + rest;
    assert(s =~= quoted(es[0].0) + seq![':', ' '] + ser_arr(es[0].1) + (obj_rest(ep) + rest));
    lemma_member_prefix(es[0].0, es[0].1, obj_rest(ep) + rest);
    let i1 = quoted(es[0].0).len();
    let i4 = i1 + 2 + ser_arr(es[0].1).len();
    assert(s.skip(i4 as int) == obj_rest(ep) + rest);
    assert((es[0].0, es[0].1) == es[0]);
    assert(obj_rest(ep) == seq!['\n', '}']);
    assert(s.skip(i4 as int) =~= seq!['\n'] + (seq!['}'] + rest));
    lemma_ws1(seq!['}'] + rest);
    assert(s[i4 + 1 as int] == '}');
    assert(es =~= seq![es[0]]);
    assert(tag_members(s) == Some((es, (i4 + 2) as nat)));
}

/// Facts about the text a non-empty entry tail is written as.
#[verifier::rlimit(100)]
#[verifier::spinoff_prover]
proof fn lemma_obj_rest_positions(ep: Seq<TagEntryM>, rest: Seq<char>)
    requires
        ep.len() > 0,
    ensures
        ({
            let t = obj_rest(ep) + rest;
            let mtail = quoted(ep[0].0) + seq![':', ' '] + ser_arr(ep[0].1) + obj_rest(
                ep.drop_first(),
            ) + rest;
            &&& t.len() > 0
            &&& t[0] == ','
            &&& ws_len(t) == 0
            &&& ws_len(t.skip(1)) == 3
            &&& t.skip(4) == mtail
        }),
{
    let t = obj_rest(ep) + rest;
    let mtail = quoted(ep[0].0) + seq![':', ' '] + ser_arr(ep[0].1) + obj_rest(ep.drop_first())
        + rest;
    assert(obj_rest(ep) == seq![',', '\n', ' ', ' '] + quoted(ep[0].0) + seq![':', ' '] + ser_arr(
        ep[0].1,
    ) + obj_rest(ep.drop_first()));
    assert(t[0] == ',');
    assert(ws_len(t) == 0);
    assert(mtail[0] == '"');
    assert(t.skip(1) =~= seq!['\n', ' ', ' '] + mtail);
    lemma_ws3(mtail);
    assert(t.skip(4) =~= mtail);
}

/// One more written member in front of an already-parsing member list.
#[verifier::rlimit(100)]
#[verifier::spinoff_prover]
proof fn lemma_members_step(es: Seq<TagEntryM>, rest: Seq<char>)
    requires
        es.len() >= 2,
        tag_members(
            quoted(es.drop_first()[0].0) + seq![':', ' '] + ser_arr(es.drop_first()[0].1)
                + obj_rest(es.drop_first().drop_first()) + rest,
        ) == Some(
            (
                es.drop_first(),
                (quoted(es.drop_first()[0].0).len() + 2 + ser_arr(es.drop_first()[0].1).len()
                    + obj_rest(es.drop_first().drop_first()).len()) as nat,
            ),
        ),
    ensures
        tag_members(
            quoted(es[0].0) + seq![':', ' '] + ser_arr(es[0].1) + obj_rest(es.drop_first()) + rest,
        ) == Some(
            (
                es,
                (quoted(es[0].0).len() + 2 + ser_arr(es[0].1).len() + obj_rest(
                    es.drop_first(),
                ).len()) as nat,
            ),
        ),
{
    let ep = es.drop_first();
    let s = quoted(es[0].0) + seq![':', ' '] + ser_arr(es[0].1) + obj_rest(ep) + rest;
    let nk = (esc_body(es[0].0).len() + 1) as nat;
    let nv = ser_arr(es[0].1).len() as nat;
    let n2 = (quoted(ep[0].0).len() + 2 + ser_arr(ep[0].1).len() + obj_rest(
        ep.drop_first(),
    ).len()) as nat;
    lemma_members_step_facts(es, rest);
    assert(tag_members(s.skip((7 + nk + nv) as int)) == Some((ep, n2)));
    lemma_tag_members_cons(s, es[0].0, nk, es[0].1, nv, ep, n2);
    assert(seq![(es[0].0, es[0].1)] + ep =~= es);
    assert(quoted(es[0].0).len() == 1 + nk);
    assert(obj_rest(ep).len() == 4 + n2);
}

/// The position facts [`lemma_members_step`] rests on.
#[verifier::rlimit(100)]
#[verifier::spinoff_prover]
proof fn lemma_members_step_facts(es: Seq<TagEntryM>, rest: Seq<char>)
    requires
        es.len() >= 2,
    ensures
        ({
            let s = quoted(es[0].0) + seq![':', ' '] + ser_arr(es[0].1) + obj_rest(
                es.drop_first(),
            ) + rest;
            let nk = (esc_body(es[0].0).len() + 1) as nat;
            let nv = ser_arr(es[0].1).len() as nat;
            let ep = es.drop_first();
            &&& s.len() > 0
            &&& s[0] == '"'
            &&& str_body(s.skip(1)) == Some((es[0].0, nk))
            &&& 1 + nk < s.len()
            &&& ws_len(s.skip((1 + nk) as int)) == 0
            &&& s[(1 + nk) as int] == ':'
            &&& ws_len(s.skip((2 + nk) as int)) == 1
            &&& 3 + nk <= s.len()
            &&& str_array(s.skip((3 + nk) as int)) == Some((es[0].1, nv))
            &&& 3 + nk + nv < s.len()
            &&& ws_len(s.skip((3 + nk + nv) as int)) == 0
            &&& s[(3 + nk + nv) as int] == ','
            &&& ws_len(s.skip((4 + nk + nv) as int)) == 3
            &&& 7 + nk + nv <= s.len()
            &&& s.skip((7 + nk + nv) as int) == quoted(ep[0].0) + seq![':', ' '] + ser_arr(
                ep[0].1,
            ) + obj_rest(ep.drop_first()) + rest
            &&& obj_rest(ep).len() == 4 + quoted(ep[0].0).len() + 2 + ser_arr(ep[0].1).len()
                + obj_rest(ep.drop_first()).len()
        }),
{
    let ep = es.drop_first();
    let s = quoted(es[0].0) + seq![':', ' '] + ser_arr(es[0].1) + obj_rest(ep) + rest;
    assert(s =~= quoted(es[0].0) + seq![':', ' '] + ser_arr(es[0].1) + (obj_rest(ep) + rest));
    lemma_member_prefix(es[0].0, es[0].1, obj_rest(ep) + rest);
    let i1 = quoted(es[0].0).len();
    let i4 = i1 + 2 + ser_arr(es[0].1).len();
    assert(s.skip(i4 as int) == obj_rest(ep) + rest);
    assert((es[0].0, es[0].1) == es[0]);
    let mtail = quoted(ep[0].0) + seq![':', ' '] + ser_arr(ep[0].1) + obj_rest(ep.drop_first())
        + rest;
    lemma_obj_rest_positions(ep, rest);
    assert(s[i4 as int] == ',');
    assert(ws_len(s.skip(i4 as int)) == 0) by {
        assert(ws_len(obj_rest(ep) + rest) == 0);
    }
    let i6 = i4 + 4;
    assert(ws_len(s.skip(i4 + 1 as int)) == 3) by {
        assert(s.skip(i4 + 1 as int) =~= (obj_rest(ep) + rest).skip(1));
    }
    assert(s.skip(i6 as int) == mtail) by {
        assert(s.skip(i6 as int) =~= (obj_rest(ep) + rest).skip(4));
    }
    assert(obj_rest(ep) == seq![',', '\n', ' ', ' '] + quoted(ep[0].0) + seq![':', ' '] + ser_arr(
        ep[0].1,
    ) + obj_rest(ep.drop_first()));
}

/// A written member list parses back to the original entries.
#[verifier::rlimit(100)]
#[verifier::spinoff_prover]
proof fn lemma_members_parse(es: Seq<TagEntryM>, rest: Seq<char>)
    requires
        es.len() > 0,
    ensures
        tag_members(
            quoted(es[0].0) + seq![':', ' '] + ser_arr(es[0].1) + obj_rest(es.drop_first()) + rest,
        ) == Some(
            (
                es,
                (quoted(es[0].0).len() + 2 + ser_arr(es[0].1).len() + obj_rest(
                    es.drop_first(),
                ).len()) as nat,
            ),
        ),
    decreases es.len(),
{
    if es.len() == 1 {
        lemma_members_single(es, rest);
    } else {
        lemma_members_parse(es.drop_first(), rest);
        lemma_members_step(es, rest);
    }
}

/// The round-trip law of the tag store: a saved mapping, loaded again, is
/// the same mapping — for every mapping whose folder keys are distinct,
/// the empty one included.
#[verifier::rlimit(100)]
#[verifier::spinoff_prover]
pub proof fn lemma_tags_round_trip(es: Seq<TagEntryM>)
    requires
        distinct_keys(es),
    ensures
        spec_tags(spec_save_tags(es)) == Some(es),
{
    let s = spec_save_tags(es);
    if es.len() == 0 {
        assert(s == seq!['{', '}']);
        assert(s[0] == '{');
        assert(ws_len(s) == 0);
        assert(s.skip(1) =~= seq!['}'] + Seq::<char>::empty());
        assert(s.skip(1)[0] == '}');
        assert(ws_len(s.skip(1)) == 0);
        assert(s[1] == '}');
        assert(s.skip(2) =~= Seq::<char>::empty());
        assert(ws_len(s.skip(2)) == 0);
        assert(tags_doc(s) == Some(Seq::<TagEntryM>::empty()));
        assert(dedup_tags(Seq::<TagEntryM>::empty()) =~= Seq::<TagEntryM>::empty());
        assert(es =~= Seq::<TagEntryM>::empty());
    } else {
        let body = quoted(es[0].0) + seq![':', ' '] + ser_arr(es[0].1) + obj_rest(es.drop_first());
        assert(s =~= seq!['{', '\n', ' ', ' '] + body);
        assert(s[0] == '{');
        assert(ws_len(s) == 0);
        assert(body[0] == '"');
        assert(s.skip(1) =~= seq!['\n', ' ', ' '] + body);
        lemma_ws3(body);
        assert(s[4] == '"');
        assert(s.skip(4) =~= body + Seq::<char>::empty());
        lemma_members_parse(es, Seq::<char>::empty());
        let n = body.len() as nat;
        assert(tag_members(s.skip(4)) == Some((es, n))) by {
            assert(body + Seq::<char>::empty() =~= body);
            assert(quoted(es[0].0).len() + 2 + ser_arr(es[0].1).len() + obj_rest(
                es.drop_first(),
            ).len() == body.len());
        }
        assert(4 + n == s.len());
        assert(s.skip(s.len() as int) =~= Seq::<char>::empty());
        assert(ws_len(s.skip((4 + n) as int)) == s.len() - (4 + n));
        lemma_tags_doc_nonempty(s, es, n);
        lemma_dedup_tags_identity(es);
    }
}

/// How [`tags_doc`] evaluates on a braced, non-empty member list, stated
/// over symbolic positions.
#[verifier::rlimit(100)]
#[verifier::spinoff_prover]
proof fn lemma_tags_doc_nonempty(s: Seq<char>, es: Seq<TagEntryM>, n: nat)
    requires
        ws_len(s) == 0,
        s.len() > 0,
        s[0] == '{',
        ws_len(s.skip(1)) == 3,
        4 < s.len(),
        s[4] != '}',
        tag_members(s.skip(4)) == Some((es, n)),
        4 + n <= s.len(),
        ws_len(s.skip((4 + n) as int)) == s.len() - (4 + n),
    ensures
        tags_doc(s) == Some(es),
{
}

/// [`lemma_tags_round_trip`], stated of a [`TagMap`] as [`save_tags`] and
/// [`parse_tags`] speak of it.
#[verifier::rlimit(100)]
#[verifier::spinoff_prover]
pub proof fn lemma_save_load_round_trip(tm: TagMap)
    requires
        tm.wf(),
    ensures
        spec_tags(spec_save_tags(tm@)) == Some(tm@),
{
    lemma_tags_round_trip(tm@);
}

} // verus!
