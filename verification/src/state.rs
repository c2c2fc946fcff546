use vstd::prelude::*;
use crate::json::{
    ws_len, str_body, value_len, valid_doc, lemma_skip_skip, skip_ws, scan_string, skip_value,
    doc_check,
};
use crate::chars::{str_to_chars, chars_to_string, chars_eq};
use crate::error::ParseError;

verus! {

// ---------------------------------------------------------------------------
// Reading the browser's state file: the profile registry under
// `profile.info_cache`.  The file is one JSON document; when that path is
// absent or not an object the registry is simply empty.
// ---------------------------------------------------------------------------

/// A browser profile as recorded in the state file.
pub struct Profile {
    /// Directory name of the profile: the key under `info_cache`.
    pub folder: String,
    /// Display name: the entry's `name` field, or empty when absent or not a
    /// string.
    pub name: String,
    /// Account email: the entry's `user_name` field, when present and a
    /// string.
    pub email: Option<String>,
}

/// Mathematical image of a [`Profile`].
pub struct ProfileM {
    pub folder: Seq<char>,
    pub name: Seq<char>,
    pub email: Option<Seq<char>>,
}

impl View for Profile {
    type V = ProfileM;

    open spec fn view(&self) -> ProfileM {
        ProfileM {
            folder: self.folder@,
            name: self.name@,
            email: match self.email {
                Some(e) => Some(e@),
                None => None,
            },
        }
    }
}

impl DeepView for Profile {
    type V = ProfileM;

    open spec fn deep_view(&self) -> ProfileM {
        self.view()
    }
}

/// Offset of the value of the last member named `key` of the object whose
/// first key starts `s`; `None` when no such member (or malformed input).
pub open spec fn obj_find(s: Seq<char>, key: Seq<char>) -> Option<nat>
    decreases s.len(),
{
    if s.len() > 0 && s[0] == '"' {
        match str_body(s.skip(1)) {
            Some((k, nk)) => {
                let i1 = 1 + nk;
                if i1 <= s.len() {
                    let i2 = i1 + ws_len(s.skip(i1 as int));
                    if i2 < s.len() && s[i2 as int] == ':' {
                        let i3 = i2 + 1 + ws_len(s.skip(i2 + 1 as int));
                        if i3 <= s.len() {
                            match value_len(s.skip(i3 as int)) {
                                Some(nv) => {
                                    let i4 = i3 + nv;
                                    if i4 <= s.len() {
                                        let i5 = i4 + ws_len(s.skip(i4 as int));
                                        if i5 < s.len() && s[i5 as int] == ',' {
                                            let i6 = i5 + 1 + ws_len(s.skip(i5 + 1 as int));
                                            if i6 <= s.len() {
                                                match obj_find(s.skip(i6 as int), key) {
                                                    Some(off) => Some((i6 + off) as nat),
                                                    None => if k == key {
                                                        Some(i3 as nat)
                                                    } else {
                                                        None
                                                    },
                                                }
                                            } else {
                                                None
                                            }
                                        } else if i5 < s.len() && s[i5 as int] == '}' {
                                            if k == key {
                                                Some(i3 as nat)
                                            } else {
                                                None
                                            }
                                        } else {
                                            None
                                        }
                                    } else {
                                        None
                                    }
                                },
                                None => None,
                            }
                        } else {
                            None
                        }
                    } else {
                        None
                    }
                } else {
                    None
                }
            },
            None => None,
        }
    } else {
        None
    }
}

/// String content of member `key` of the object value starting at the front
/// of `s`, when `s` starts an object and that member's value is a string.
pub open spec fn field_str(s: Seq<char>, key: Seq<char>) -> Option<Seq<char>> {
    if s.len() > 0 && s[0] == '{' {
        let i = 1 + ws_len(s.skip(1));
        if i < s.len() && s[i as int] != '}' {
            match obj_find(s.skip(i as int), key) {
                Some(off) => {
                    let v = i + off;
                    if v < s.len() && s[v as int] == '"' {
                        match str_body(s.skip(v + 1 as int)) {
                            Some((t, _n)) => Some(t),
                            None => None,
                        }
                    } else {
                        None
                    }
                },
                None => None,
            }
        } else {
            None
        }
    } else {
        None
    }
}

/// The profile a registry entry describes: folder from the key, `name` and
/// `user_name` fields from the entry's value.
pub open spec fn entry_profile(k: Seq<char>, s: Seq<char>) -> ProfileM {
    ProfileM {
        folder: k,
        name: match field_str(s, "name"@) {
            Some(t) => t,
            None => Seq::empty(),
        },
        email: field_str(s, "user_name"@),
    }
}

/// Raw profile entries of the `info_cache` object whose first key starts
/// `s`, in file order (duplicate folders not yet merged).
pub open spec fn entries_of(s: Seq<char>) -> Option<Seq<ProfileM>>
    decreases s.len(),
{
    if s.len() > 0 && s[0] == '"' {
        match str_body(s.skip(1)) {
            Some((k, nk)) => {
                let i1 = 1 + nk;
                if i1 <= s.len() {
                    let i2 = i1 + ws_len(s.skip(i1 as int));
                    if i2 < s.len() && s[i2 as int] == ':' {
                        let i3 = i2 + 1 + ws_len(s.skip(i2 + 1 as int));
                        if i3 <= s.len() {
                            match value_len(s.skip(i3 as int)) {
                                Some(nv) => {
                                    let e = entry_profile(k, s.skip(i3 as int));
                                    let i4 = i3 + nv;
                                    if i4 <= s.len() {
                                        let i5 = i4 + ws_len(s.skip(i4 as int));
                                        if i5 < s.len() && s[i5 as int] == ',' {
                                            let i6 = i5 + 1 + ws_len(s.skip(i5 + 1 as int));
                                            if i6 <= s.len() {
                                                match entries_of(s.skip(i6 as int)) {
                                                    Some(rest) => Some(seq![e] + rest),
                                                    None => None,
                                                }
                                            } else {
                                                None
                                            }
                                        } else if i5 < s.len() && s[i5 as int] == '}' {
                                            Some(seq![e])
                                        } else {
                                            None
                                        }
                                    } else {
                                        None
                                    }
                                },
                                None => None,
                            }
                        } else {
                            None
                        }
                    } else {
                        None
                    }
                } else {
                    None
                }
            },
            None => None,
        }
    } else {
        None
    }
}

/// Index of the first profile with the given folder, `-1` when absent.
pub open spec fn idx_of(ps: Seq<ProfileM>, f: Seq<char>) -> int
    decreases ps.len(),
{
    if ps.len() == 0 {
        -1
    } else if ps[0].folder == f {
        0
    } else {
        let r = idx_of(ps.drop_first(), f);
        if r < 0 {
            -1
        } else {
            1 + r
        }
    }
}

#[verifier::rlimit(100)]
#[verifier::spinoff_prover]
pub proof fn lemma_idx_of(ps: Seq<ProfileM>, f: Seq<char>)
    ensures
        idx_of(ps, f) < 0 ==> forall|k: int| 0 <= k < ps.len() ==> ps[k].folder != f,
        idx_of(ps, f) >= 0 ==> 0 <= idx_of(ps, f) < ps.len() && ps[idx_of(ps, f)].folder == f
            && forall|k: int| 0 <= k < idx_of(ps, f) ==> ps[k].folder != f,
    decreases ps.len(),
{
    if ps.len() > 0 && ps[0].folder != f {
        lemma_idx_of(ps.drop_first(), f);
        assert forall|k: int| 0 <= k < ps.len() implies (ps.drop_first()[k - 1] == ps[k] || k == 0)
        by {}
    }
}

/// Insert a profile: replace the one sharing its folder, else append.
pub open spec fn upsert(ps: Seq<ProfileM>, p: ProfileM) -> Seq<ProfileM> {
    let i = idx_of(ps, p.folder);
    if i < 0 {
        ps.push(p)
    } else {
        ps.update(i, p)
    }
}

/// Merge duplicate folders: the later entry wins, at the earlier position —
/// the JSON-object reading of repeated keys.
pub open spec fn dedup_profiles(es: Seq<ProfileM>) -> Seq<ProfileM>
    decreases es.len(),
{
    if es.len() == 0 {
        Seq::empty()
    } else {
        upsert(dedup_profiles(es.drop_last()), es.last())
    }
}

/// Position of the value named `key` inside the object value starting at
/// position `j` of the document; `None` when there is no object with such a
/// member there.
pub open spec fn member_pos(s: Seq<char>, j: nat, key: Seq<char>) -> Option<nat> {
    if j < s.len() && s[j as int] == '{' {
        let k = j + 1 + ws_len(s.skip(j + 1 as int));
        if k < s.len() && s[k as int] != '}' {
            match obj_find(s.skip(k as int), key) {
                Some(off) => Some((k + off) as nat),
                None => None,
            }
        } else {
            None
        }
    } else {
        None
    }
}

/// Position of the value of `profile.info_cache` in the document.
pub open spec fn cache_pos(s: Seq<char>) -> Option<nat> {
    let w = ws_len(s);
    match member_pos(s, w, "profile"@) {
        Some(j) => member_pos(s, j, "info_cache"@),
        None => None,
    }
}

/// Navigate a whole document to the entries of `profile.info_cache`.
/// `None` when that path is absent or not an object.
pub open spec fn info_cache_entries(s: Seq<char>) -> Option<Seq<ProfileM>> {
    match cache_pos(s) {
        Some(m) => {
            if m < s.len() && s[m as int] == '{' {
                let p = m + 1 + ws_len(s.skip(m + 1 as int));
                if p < s.len() && s[p as int] != '}' {
                    entries_of(s.skip(p as int))
                } else if p < s.len() {
                    Some(Seq::empty())
                } else {
                    None
                }
            } else {
                None
            }
        },
        None => None,
    }
}

/// The profile list a well-formed state file denotes.
pub open spec fn spec_profiles(s: Seq<char>) -> Seq<ProfileM> {
    match info_cache_entries(s) {
        Some(es) => dedup_profiles(es),
        None => Seq::empty(),
    }
}

/// When every entry of `info_cache` has its own folder key, the profile list
/// is exactly those entries, in file order — one record per entry.
#[verifier::rlimit(100)]
#[verifier::spinoff_prover]
pub proof fn lemma_profiles_match_entries(s: Seq<char>, es: Seq<ProfileM>)
    requires
        info_cache_entries(s) == Some(es),
        forall|a: int, b: int| 0 <= a < b < es.len() ==> es[a].folder != es[b].folder,
    ensures
        spec_profiles(s) == es,
        spec_profiles(s).len() == es.len(),
        forall|k: int| 0 <= k < es.len() ==> spec_profiles(s)[k].folder == es[k].folder,
{
    lemma_dedup_distinct_identity(es);
}

/// Merging changes nothing when all folders are distinct.
#[verifier::rlimit(100)]
#[verifier::spinoff_prover]
pub proof fn lemma_dedup_distinct_identity(es: Seq<ProfileM>)
    requires
        forall|a: int, b: int| 0 <= a < b < es.len() ==> es[a].folder != es[b].folder,
    ensures
        dedup_profiles(es) == es,
    decreases es.len(),
{
    if es.len() > 0 {
        let front = es.drop_last();
        lemma_dedup_distinct_identity(front);
        lemma_idx_of(front, es.last().folder);
        if idx_of(front, es.last().folder) >= 0 {
            let i = idx_of(front, es.last().folder);
            assert(es[i].folder == es[es.len() - 1].folder);
            assert(false);
        }
        assert(front.push(es.last()) =~= es);
    }
}

/// A state file whose `profile.info_cache` path is missing (or not an
/// object) denotes no profiles at all — it is not an error.
#[verifier::rlimit(100)]
#[verifier::spinoff_prover]
pub proof fn lemma_missing_info_cache_empty(s: Seq<char>)
    requires
        info_cache_entries(s) is None,
    ensures
        spec_profiles(s) == Seq::<ProfileM>::empty(),
{
}

/// Executable [`obj_find`].
#[verifier::rlimit(100)]
#[verifier::spinoff_prover]
fn obj_find_exec(s: &Vec<char>, i: usize, key: &Vec<char>) -> (r: Option<usize>)
    requires
        i <= s.len(),
    ensures
        match r {
            Some(v) => i <= v <= s.len() && obj_find(s@.skip(i as int), key@) == Some(
                (v - i) as nat,
            ),
            None => obj_find(s@.skip(i as int), key@) is None,
        },
    decreases s.len() - i,
{
    let ghost ss = s@.skip(i as int);
    proof {
        assert(ss.len() == s.len() - i);
    }
    if i < s.len() && s[i] == '"' {
        proof {
            assert(ss[0] == s@[i as int]);
            lemma_skip_skip(s@, i as int, 1);
        }
        match scan_string(s, i + 1) {
            Some((k, i1)) => {
                proof {
                    lemma_skip_skip(s@, i as int, i1 - i);
                }
                let i2 = skip_ws(s, i1);
                if i2 < s.len() && s[i2] == ':' {
                    proof {
                        assert(ss[i2 - i] == s@[i2 as int]);
                        lemma_skip_skip(s@, i as int, i2 + 1 - i);
                    }
                    let i3 = skip_ws(s, i2 + 1);
                    proof {
                        lemma_skip_skip(s@, i as int, i3 - i);
                    }
                    match skip_value(s, i3) {
                        Some(i4) => {
                            proof {
                                lemma_skip_skip(s@, i as int, i4 - i);
                            }
                            let i5 = skip_ws(s, i4);
                            if i5 < s.len() && s[i5] == ',' {
                                proof {
                                    assert(ss[i5 - i] == s@[i5 as int]);
                                    lemma_skip_skip(s@, i as int, i5 + 1 - i);
                                }
                                let i6 = skip_ws(s, i5 + 1);
                                proof {
                                    lemma_skip_skip(s@, i as int, i6 - i);
                                }
                                match obj_find_exec(s, i6, key) {
                                    Some(v) => Some(v),
                                    None => if chars_eq(&k, key) {
                                        Some(i3)
                                    } else {
                                        None
                                    },
                                }
                            } else if i5 < s.len() && s[i5] == '}' {
                                proof {
                                    assert(ss[i5 - i] == s@[i5 as int]);
                                }
                                if chars_eq(&k, key) {
                                    Some(i3)
                                } else {
                                    None
                                }
                            } else {
                                proof {
                                    if i5 < s.len() {
                                        assert(ss[i5 - i] == s@[i5 as int]);
                                    }
                                }
                                None
                            }
                        },
                        None => None,
                    }
                } else {
                    proof {
                        if i2 < s.len() {
                            assert(ss[i2 - i] == s@[i2 as int]);
                        }
                    }
                    None
                }
            },
            None => None,
        }
    } else {
        proof {
            if i < s.len() {
                assert(ss[0] == s@[i as int]);
            }
        }
        None
    }
}

/// Executable [`field_str`].
#[verifier::rlimit(100)]
#[verifier::spinoff_prover]
fn field_str_exec(s: &Vec<char>, i: usize, key: &Vec<char>) -> (r: Option<Vec<char>>)
    requires
        i <= s.len(),
    ensures
        match r {
            Some(t) => field_str(s@.skip(i as int), key@) == Some(t@),
            None => field_str(s@.skip(i as int), key@) is None,
        },
{
    let ghost ss = s@.skip(i as int);
    proof {
        assert(ss.len() == s.len() - i);
    }
    if i < s.len() && s[i] == '{' {
        proof {
            assert(ss[0] == s@[i as int]);
            lemma_skip_skip(s@, i as int, 1);
        }
        let w = skip_ws(s, i + 1);
        if w < s.len() && !(s[w] == '}') {
            proof {
                assert(ss[w - i] == s@[w as int]);
                lemma_skip_skip(s@, i as int, w - i);
            }
            match obj_find_exec(s, w, key) {
                Some(v) => {
                    if v < s.len() && s[v] == '"' {
                        proof {
                            assert(ss[v - i] == s@[v as int]);
                            lemma_skip_skip(s@, i as int, v + 1 - i);
                        }
                        match scan_string(s, v + 1) {
                            Some((t, _j)) => Some(t),
                            None => None,
                        }
                    } else {
                        proof {
                            if v < s.len() {
                                assert(ss[v - i] == s@[v as int]);
                            }
                        }
                        None
                    }
                },
                None => None,
            }
        } else {
            proof {
                if w < s.len() {
                    assert(ss[w - i] == s@[w as int]);
                }
            }
            None
        }
    } else {
        proof {
            if i < s.len() {
                assert(ss[0] == s@[i as int]);
            }
        }
        None
    }
}

/// Builds the profile of one registry entry: folder key `k`, entry value at
/// position `i`.
#[verifier::rlimit(100)]
#[verifier::spinoff_prover]
fn read_entry(s: &Vec<char>, k: Vec<char>, i: usize) -> (p: Profile)
    requires
        i <= s.len(),
    ensures
        p@ == entry_profile(k@, s@.skip(i as int)),
{
    let name_key = str_to_chars("name");
    let email_key = str_to_chars("user_name");
    let name = match field_str_exec(s, i, &name_key) {
        Some(t) => chars_to_string(&t),
        None => String::new(),
    };
    let email = match field_str_exec(s, i, &email_key) {
        Some(t) => Some(chars_to_string(&t)),
        None => None,
    };
    Profile { folder: chars_to_string(&k), name, email }
}

/// Executable [`entries_of`].
#[verifier::rlimit(100)]
#[verifier::spinoff_prover]
fn entries_exec(s: &Vec<char>, i: usize) -> (r: Option<Vec<Profile>>)
    requires
        i <= s.len(),
    ensures
        match r {
            Some(ps) => entries_of(s@.skip(i as int)) == Some(ps.deep_view()),
            None => entries_of(s@.skip(i as int)) is None,
        },
    decreases s.len() - i,
{
    let ghost ss = s@.skip(i as int);
    proof {
        assert(ss.len() == s.len() - i);
    }
    if i < s.len() && s[i] == '"' {
        proof {
            assert(ss[0] == s@[i as int]);
            lemma_skip_skip(s@, i as int, 1);
        }
        match scan_string(s, i + 1) {
            Some((k, i1)) => {
                proof {
                    lemma_skip_skip(s@, i as int, i1 - i);
                }
                let i2 = skip_ws(s, i1);
                if i2 < s.len() && s[i2] == ':' {
                    proof {
                        assert(ss[i2 - i] == s@[i2 as int]);
                        lemma_skip_skip(s@, i as int, i2 + 1 - i);
                    }
                    let i3 = skip_ws(s, i2 + 1);
                    proof {
                        lemma_skip_skip(s@, i as int, i3 - i);
                    }
                    match skip_value(s, i3) {
                        Some(i4) => {
                            let p = read_entry(s, k, i3);
                            proof {
                                lemma_skip_skip(s@, i as int, i4 - i);
                            }
                            let i5 = skip_ws(s, i4);
                            if i5 < s.len() && s[i5] == ',' {
                                proof {
                                    assert(ss[i5 - i] == s@[i5 as int]);
                                    lemma_skip_skip(s@, i as int, i5 + 1 - i);
                                }
                                let i6 = skip_ws(s, i5 + 1);
                                proof {
                                    lemma_skip_skip(s@, i as int, i6 - i);
                                }
                                match entries_exec(s, i6) {
                                    Some(rest) => {
                                        let ghost rdv = rest.deep_view();
                                        let mut rest = rest;
                                        let mut out: Vec<Profile> = Vec::new();
                                        out.push(p);
                                        out.append(&mut rest);
                                        proof {
                                            assert(out.deep_view() =~= seq![p@] + rdv);
                                        }
                                        Some(out)
                                    },
                                    None => None,
                                }
                            } else if i5 < s.len() && s[i5] == '}' {
                                proof {
                                    assert(ss[i5 - i] == s@[i5 as int]);
                                }
                                let mut out: Vec<Profile> = Vec::new();
                                out.push(p);
                                proof {
                                    assert(out.deep_view() =~= seq![p@]);
                                }
                                Some(out)
                            } else {
                                proof {
                                    if i5 < s.len() {
                                        assert(ss[i5 - i] == s@[i5 as int]);
                                    }
                                }
                                None
                            }
                        },
                        None => None,
                    }
                } else {
                    proof {
                        if i2 < s.len() {
                            assert(ss[i2 - i] == s@[i2 as int]);
                        }
                    }
                    None
                }
            },
            None => None,
        }
    } else {
        proof {
            if i < s.len() {
                assert(ss[0] == s@[i as int]);
            }
        }
        None
    }
}

/// Executable [`member_pos`].
#[verifier::rlimit(100)]
#[verifier::spinoff_prover]
fn member_pos_exec(s: &Vec<char>, j: usize, key: &Vec<char>) -> (r: Option<usize>)
    requires
        j <= s.len(),
    ensures
        match r {
            Some(m) => m <= s.len() && member_pos(s@, j as nat, key@) == Some(m as nat),
            None => member_pos(s@, j as nat, key@) is None,
        },
{
    if j < s.len() && s[j] == '{' {
        let k = skip_ws(s, j + 1);
        if k < s.len() && !(s[k] == '}') {
            match obj_find_exec(s, k, key) {
                Some(v) => Some(v),
                None => None,
            }
        } else {
            None
        }
    } else {
        None
    }
}

/// Executable [`cache_pos`].
#[verifier::rlimit(100)]
#[verifier::spinoff_prover]
fn cache_pos_exec(s: &Vec<char>) -> (r: Option<usize>)
    ensures
        match r {
            Some(m) => m <= s.len() && cache_pos(s@) == Some(m as nat),
            None => cache_pos(s@) is None,
        },
{
    let profile_key = str_to_chars("profile");
    let cache_key = str_to_chars("info_cache");
    proof {
        assert(s@.skip(0) =~= s@);
    }
    let w = skip_ws(s, 0);
    match member_pos_exec(s, w, &profile_key) {
        Some(j) => member_pos_exec(s, j, &cache_key),
        None => None,
    }
}

/// Executable [`info_cache_entries`].
#[verifier::rlimit(100)]
#[verifier::spinoff_prover]
fn info_cache_exec(s: &Vec<char>) -> (r: Option<Vec<Profile>>)
    ensures
        match r {
            Some(ps) => info_cache_entries(s@) == Some(ps.deep_view()),
            None => info_cache_entries(s@) is None,
        },
{
    match cache_pos_exec(s) {
        Some(m) => {
            if m < s.len() && s[m] == '{' {
                let p = skip_ws(s, m + 1);
                if p < s.len() && !(s[p] == '}') {
                    entries_exec(s, p)
                } else if p < s.len() {
                    let out: Vec<Profile> = Vec::new();
                    proof {
                        assert(out.deep_view() =~= Seq::<ProfileM>::empty());
                    }
                    Some(out)
                } else {
                    None
                }
            } else {
                None
            }
        },
        None => None,
    }
}

/// First profile whose folder equals `f`.
#[verifier::rlimit(100)]
#[verifier::spinoff_prover]
fn find_folder(ps: &Vec<Profile>, f: &String) -> (r: Option<usize>)
    ensures
        match r {
            Some(k) => k < ps.len() && idx_of(ps.deep_view(), f@) == k as int,
            None => idx_of(ps.deep_view(), f@) < 0,
        },
{
    let n = ps.len();
    let mut k: usize = 0;
    while k < n
        invariant
            n == ps.len(),
            k <= n,
            forall|j: int| 0 <= j < k ==> ps.deep_view()[j].folder != f@,
        decreases n - k,
    {
        if ps[k].folder.eq(f) {
            proof {
                assert(ps.deep_view()[k as int].folder == f@);
                lemma_idx_of(ps.deep_view(), f@);
            }
            return Some(k);
        }
        proof {
            assert(ps.deep_view()[k as int].folder == ps@[k as int].folder@);
        }
        k = k + 1;
    }
    proof {
        lemma_idx_of(ps.deep_view(), f@);
    }
    None
}

/// Inserts a profile as [`upsert`] describes.
#[verifier::rlimit(100)]
#[verifier::spinoff_prover]
fn push_profile(out: &mut Vec<Profile>, p: Profile)
    ensures
        final(out).deep_view() == upsert(old(out).deep_view(), p@),
{
    let ghost odv = out.deep_view();
    match find_folder(out, &p.folder) {
        Some(k) => {
            out.set(k, p);
            proof {
                assert(out.deep_view() =~= odv.update(idx_of(odv, p@.folder), p@));
            }
        },
        None => {
            out.push(p);
            proof {
                assert(out.deep_view() =~= odv.push(p@));
            }
        },
    }
}

/// Reads the profile registry out of the browser's state file content.
///
/// Returns the profiles recorded under `profile.info_cache`, one per entry,
/// in file order; an absent or non-object `profile.info_cache` yields an
/// empty list.  Fails exactly when the content is not well-formed JSON.
#[verifier::rlimit(100)]
#[verifier::spinoff_prover]
pub fn list_profiles(state: &str) -> (r: Result<Vec<Profile>, ParseError>)
    ensures
        match r {
            Ok(ps) => valid_doc(state@) && ps.deep_view() == spec_profiles(state@),
            Err(_) => !valid_doc(state@),
        },
{
    let s = str_to_chars(state);
    if !doc_check(&s) {
        Err(ParseError)
    } else {
        match info_cache_exec(&s) {
            None => {
                let out: Vec<Profile> = Vec::new();
                proof {
                    assert(out.deep_view() =~= Seq::<ProfileM>::empty());
                }
                Ok(out)
            },
            Some(raw) => {
                let mut raw = raw;
                let ghost rdv = raw.deep_view();
                let n = raw.len();
                let mut out: Vec<Profile> = Vec::new();
                let mut mi: usize = 0;
                proof {
                    assert(raw.deep_view() =~= rdv.skip(0));
                    assert(out.deep_view() =~= Seq::<ProfileM>::empty());
                    assert(rdv.take(0) =~= Seq::<ProfileM>::empty());
                }
                while mi < n
                    invariant
                        n == rdv.len(),
                        mi <= n,
                        raw.len() == n - mi,
                        raw.deep_view() == rdv.skip(mi as int),
                        out.deep_view() == dedup_profiles(rdv.take(mi as int)),
                    decreases n - mi,
                {
                    let ghost oraw = raw.deep_view();
                    let ghost ov = raw@;
                    let p = raw.remove(0);
                    proof {
                        assert(p.deep_view() == oraw[0]);
                        assert(p@ == rdv[mi as int]);
                        assert(raw@ =~= ov.skip(1));
                        assert forall|j: int| 0 <= j < raw.deep_view().len() implies raw.deep_view()[j]
                            == rdv.skip(mi + 1)[j] by {
                            assert(raw.deep_view()[j] == raw@[j].deep_view());
                            assert(raw@[j] == ov[j + 1]);
                            assert(oraw[j + 1] == ov[j + 1].deep_view());
                            assert(oraw == rdv.skip(mi as int));
                            assert(rdv.skip(mi + 1)[j] == rdv[mi + 1 + j]);
                            assert(rdv.skip(mi as int)[j + 1] == rdv[mi + 1 + j]);
                        }
                        assert(raw.deep_view() =~= rdv.skip(mi + 1));
                    }
                    let ghost odv = out.deep_view();
                    push_profile(&mut out, p);
                    proof {
                        assert(rdv.take(mi + 1).drop_last() =~= rdv.take(mi as int));
                        assert(rdv.take(mi + 1).last() == rdv[mi as int]);
                        assert(dedup_profiles(rdv.take(mi + 1)) == upsert(odv, p@));
                    }
                    mi = mi + 1;
                }
                proof {
                    assert(rdv.take(n as int) =~= rdv);
                }
                Ok(out)
            },
        }
    }
}

} // verus!
