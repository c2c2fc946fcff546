use vstd::prelude::*;

verus! {

// ---------------------------------------------------------------------------
// The JSON grammar, as specification functions over character sequences.
//
// Each function examines a suffix of the document and returns how many
// characters one construct occupies there (`None` when the suffix does not
// begin with that construct).  Working with consumed counts keeps every
// recursive call on a strictly shorter suffix, which settles termination.
// ---------------------------------------------------------------------------

/// JSON insignificant whitespace.
pub open spec fn is_ws(c: char) -> bool {
    c == ' ' || c == '\t' || c == '\n' || c == '\r'
}

/// Number of whitespace characters at the front of `s`.
pub open spec fn ws_len(s: Seq<char>) -> nat
    decreases s.len(),
{
    if s.len() > 0 && is_ws(s[0]) {
        (1 + ws_len(s.skip(1))) as nat
    } else {
        0
    }
}

/// Composing two skips is one skip.
#[verifier::rlimit(100)]
#[verifier::spinoff_prover]
pub proof fn lemma_skip_skip(s: Seq<char>, i: int, j: int)
    requires
        0 <= i,
        0 <= j,
        i + j <= s.len(),
    ensures
        s.skip(i).skip(j) == s.skip(i + j),
{
    assert(s.skip(i).skip(j) =~= s.skip(i + j));
}

/// Decimal digit.
pub open spec fn is_digit(c: char) -> bool {
    '0' as u32 <= c as u32 <= '9' as u32
}

/// Hexadecimal digit.
pub open spec fn is_hex(c: char) -> bool {
    is_digit(c) || 'a' as u32 <= c as u32 <= 'f' as u32 || 'A' as u32 <= c as u32 <= 'F' as u32
}

/// Value of a hexadecimal digit.
pub open spec fn hex_digit_val(c: char) -> int {
    if is_digit(c) {
        c as u32 - '0' as u32
    } else if 'a' as u32 <= c as u32 <= 'f' as u32 {
        c as u32 - 'a' as u32 + 10
    } else {
        c as u32 - 'A' as u32 + 10
    }
}

/// Value of a four-digit hexadecimal escape.
pub open spec fn hex4_val(a: char, b: char, c: char, d: char) -> int {
    ((hex_digit_val(a) * 16 + hex_digit_val(b)) * 16 + hex_digit_val(c)) * 16 + hex_digit_val(d)
}

/// The character a single-character escape stands for, if the escape exists.
pub open spec fn simple_unescape(e: char) -> Option<char> {
    if e == '"' {
        Some('"')
    } else if e == '\\' {
        Some('\\')
    } else if e == '/' {
        Some('/')
    } else if e == 'b' {
        Some('\u{0008}')
    } else if e == 'f' {
        Some('\u{000C}')
    } else if e == 'n' {
        Some('\n')
    } else if e == 'r' {
        Some('\r')
    } else if e == 't' {
        Some('\t')
    } else {
        None
    }
}

/// Body of a string literal.  `s` starts just after the opening quote; the
/// result is the decoded content together with the number of characters
/// consumed, closing quote included.  Unescaped characters must not be
/// control characters; `\uXXXX` escapes must not name surrogates.
pub open spec fn str_body(s: Seq<char>) -> Option<(Seq<char>, nat)>
    decreases s.len(),
{
    if s.len() == 0 {
        None
    } else if s[0] == '"' {
        Some((Seq::empty(), 1 as nat))
    } else if s[0] == '\\' {
        if s.len() >= 2 {
            let e = s[1];
            if e == 'u' {
                if s.len() >= 6 && is_hex(s[2]) && is_hex(s[3]) && is_hex(s[4]) && is_hex(s[5]) {
                    let v = hex4_val(s[2], s[3], s[4], s[5]);
                    if !(0xD800 <= v <= 0xDFFF) {
                        match str_body(s.skip(6)) {
                            Some((t, n)) => Some((seq![(v as u32) as char] + t, (6 + n) as nat)),
                            None => None,
                        }
                    } else {
                        None
                    }
                } else {
                    None
                }
            } else {
                match simple_unescape(e) {
                    Some(c) => match str_body(s.skip(2)) {
                        Some((t, n)) => Some((seq![c] + t, (2 + n) as nat)),
                        None => None,
                    },
                    None => None,
                }
            }
        } else {
            None
        }
    } else if s[0] as u32 >= 0x20 {
        match str_body(s.skip(1)) {
            Some((t, n)) => Some((seq![s[0]] + t, (1 + n) as nat)),
            None => None,
        }
    } else {
        None
    }
}

/// Number of decimal digits at the front of `s`.
pub open spec fn digits_len(s: Seq<char>) -> nat
    decreases s.len(),
{
    if s.len() > 0 && is_digit(s[0]) {
        (1 + digits_len(s.skip(1))) as nat
    } else {
        0
    }
}

#[verifier::rlimit(100)]
#[verifier::spinoff_prover]
pub proof fn lemma_digits_len_le(s: Seq<char>)
    ensures
        digits_len(s) <= s.len(),
    decreases s.len(),
{
    if s.len() > 0 && is_digit(s[0]) {
        lemma_digits_len_le(s.skip(1));
    }
}

/// Length of a JSON number at the front of `s`: optional minus sign, integer
/// part without leading zeros, optional fraction, optional exponent.
pub open spec fn number_len(s: Seq<char>) -> Option<nat> {
    let i0: nat = if s.len() > 0 && s[0] == '-' {
        1 as nat
    } else {
        0 as nat
    };
    if i0 < s.len() && is_digit(s[i0 as int]) {
        let ilen: nat = if s[i0 as int] == '0' {
            1 as nat
        } else {
            digits_len(s.skip(i0 as int))
        };
        let p1 = i0 + ilen;
        let p2: Option<nat> = if p1 < s.len() && s[p1 as int] == '.' {
            let fl = digits_len(s.skip(p1 + 1 as int));
            if fl > 0 {
                Some((p1 + 1 + fl) as nat)
            } else {
                None
            }
        } else {
            Some(p1 as nat)
        };
        match p2 {
            None => None,
            Some(q) => {
                if q < s.len() && (s[q as int] == 'e' || s[q as int] == 'E') {
                    let r0: nat = if q + 1 < s.len() && (s[q + 1 as int] == '+' || s[q + 1 as int] == '-') {
                        (q + 2) as nat
                    } else {
                        (q + 1) as nat
                    };
                    let el = digits_len(s.skip(r0 as int));
                    if el > 0 {
                        Some((r0 + el) as nat)
                    } else {
                        None
                    }
                } else {
                    Some(q)
                }
            },
        }
    } else {
        None
    }
}

/// Length of one JSON value at the front of `s` (`s` starts at the value,
/// no leading whitespace).
pub open spec fn value_len(s: Seq<char>) -> Option<nat>
    decreases s.len(), 2int,
{
    if s.len() == 0 {
        None
    } else if s[0] == '"' {
        match str_body(s.skip(1)) {
            Some((t, n)) => Some((1 + n) as nat),
            None => None,
        }
    } else if s[0] == '{' {
        let i = 1 + ws_len(s.skip(1));
        if i < s.len() {
            if s[i as int] == '}' {
                Some((i + 1) as nat)
            } else {
                match members_len(s.skip(i as int)) {
                    Some(m) => Some((i + m) as nat),
                    None => None,
                }
            }
        } else {
            None
        }
    } else if s[0] == '[' {
        let i = 1 + ws_len(s.skip(1));
        if i < s.len() {
            if s[i as int] == ']' {
                Some((i + 1) as nat)
            } else {
                match elements_len(s.skip(i as int)) {
                    Some(m) => Some((i + m) as nat),
                    None => None,
                }
            }
        } else {
            None
        }
    } else if s[0] == 't' {
        if s.len() >= 4 && s[1] == 'r' && s[2] == 'u' && s[3] == 'e' {
            Some(4 as nat)
        } else {
            None
        }
    } else if s[0] == 'f' {
        if s.len() >= 5 && s[1] == 'a' && s[2] == 'l' && s[3] == 's' && s[4] == 'e' {
            Some(5 as nat)
        } else {
            None
        }
    } else if s[0] == 'n' {
        if s.len() >= 4 && s[1] == 'u' && s[2] == 'l' && s[3] == 'l' {
            Some(4 as nat)
        } else {
            None
        }
    } else {
        number_len(s)
    }
}

/// Length of a non-empty member list of an object, closing brace included.
/// `s` starts at the first key's opening quote.
pub open spec fn members_len(s: Seq<char>) -> Option<nat>
    decreases s.len(), 1int,
{
    if s.len() > 0 && s[0] == '"' {
        match str_body(s.skip(1)) {
            Some((k, nk)) => {
                let i1 = 1 + nk;
                if i1 <= s.len() {
                    let i2 = i1 + ws_len(s.skip(i1 as int));
                    if i2 < s.len() && s[i2 as int] == ':' {
                        let i3 = i2 + 1 + ws_len(s.skip(i2 + 1 as int));
                        if i3 <= s.len() {
                            match value_len(s.skip(i3 as int)) {
                                Some(nv) => {
                                    let i4 = i3 + nv;
                                    if i4 <= s.len() {
                                        let i5 = i4 + ws_len(s.skip(i4 as int));
                                        if i5 < s.len() && s[i5 as int] == ',' {
                                            let i6 = i5 + 1 + ws_len(s.skip(i5 + 1 as int));
                                            if i6 <= s.len() {
                                                match members_len(s.skip(i6 as int)) {
                                                    Some(m) => Some((i6 + m) as nat),
                                                    None => None,
                                                }
                                            } else {
                                                None
                                            }
                                        } else if i5 < s.len() && s[i5 as int] == '}' {
                                            Some((i5 + 1) as nat)
                                        } else {
                                            None
                                        }
                                    } else {
                                        None
                                    }
                                },
                                None => None,
                            }
                        } else {
                            None
                        }
                    } else {
                        None
                    }
                } else {
                    None
                }
            },
            None => None,
        }
    } else {
        None
    }
}

/// Length of a non-empty element list of an array, closing bracket included.
/// `s` starts at the first element.
pub open spec fn elements_len(s: Seq<char>) -> Option<nat>
    decreases s.len(), 3int,
{
    match value_len(s) {
        Some(nv) => {
            if nv <= s.len() {
                let i1 = nv + ws_len(s.skip(nv as int));
                if i1 < s.len() && s[i1 as int] == ',' {
                    let i2 = i1 + 1 + ws_len(s.skip(i1 + 1 as int));
                    if i2 <= s.len() {
                        match elements_len(s.skip(i2 as int)) {
                            Some(m) => Some((i2 + m) as nat),
                            None => None,
                        }
                    } else {
                        None
                    }
                } else if i1 < s.len() && s[i1 as int] == ']' {
                    Some((i1 + 1) as nat)
                } else {
                    None
                }
            } else {
                None
            }
        },
        None => None,
    }
}

// ---------------------------------------------------------------------------
// The executable scanner.  Each function walks the document from a position
// and returns where the construct ends, proved equal to the grammar above.
// ---------------------------------------------------------------------------

/// Relies on `char::from_u32`: it returns the character with the given code
/// point exactly when that code point is a Unicode scalar value.
#[verifier::external_body]
fn char_from_code(v: u32) -> (r: Option<char>)
    ensures
        r == (if v < 0xD800 || (0xE000 <= v && v <= 0x10FFFF) {
            Some(v as char)
        } else {
            None::<char>
        }),
{
    char::from_u32(v)
}

#[verifier::rlimit(100)]
#[verifier::spinoff_prover]
fn is_ws_exec(c: char) -> (b: bool)
    ensures
        b == is_ws(c),
{
    c == ' ' || c == '\t' || c == '\n' || c == '\r'
}

#[verifier::rlimit(100)]
#[verifier::spinoff_prover]
fn is_digit_exec(c: char) -> (b: bool)
    ensures
        b == is_digit(c),
{
    let u = c as u32;
    0x30 <= u && u <= 0x39
}

#[verifier::rlimit(100)]
#[verifier::spinoff_prover]
fn is_hex_exec(c: char) -> (b: bool)
    ensures
        b == is_hex(c),
{
    let u = c as u32;
    (0x30 <= u && u <= 0x39) || (0x61 <= u && u <= 0x66) || (0x41 <= u && u <= 0x46)
}

#[verifier::rlimit(100)]
#[verifier::spinoff_prover]
fn hex_val_exec(c: char) -> (v: u32)
    requires
        is_hex(c),
    ensures
        v as int == hex_digit_val(c),
        v < 16,
{
    let u = c as u32;
    if 0x30 <= u && u <= 0x39 {
        u - 0x30
    } else if 0x61 <= u && u <= 0x66 {
        u - 0x61 + 10
    } else {
        u - 0x41 + 10
    }
}

#[verifier::rlimit(100)]
#[verifier::spinoff_prover]
fn simple_unescape_exec(e: char) -> (r: Option<char>)
    ensures
        r == simple_unescape(e),
{
    if e == '"' {
        Some('"')
    } else if e == '\\' {
        Some('\\')
    } else if e == '/' {
        Some('/')
    } else if e == 'b' {
        Some('\u{0008}')
    } else if e == 'f' {
        Some('\u{000C}')
    } else if e == 'n' {
        Some('\n')
    } else if e == 'r' {
        Some('\r')
    } else if e == 't' {
        Some('\t')
    } else {
        None
    }
}

/// First position at or after `i` holding a non-whitespace character.
#[verifier::rlimit(100)]
#[verifier::spinoff_prover]
pub fn skip_ws(s: &Vec<char>, i: usize) -> (j: usize)
    requires
        i <= s.len(),
    ensures
        i <= j <= s.len(),
        j - i == ws_len(s@.skip(i as int)),
    decreases s.len() - i,
{
    proof {
        assert(s@.skip(i as int).len() == s.len() - i);
    }
    if i < s.len() {
        let c = s[i];
        proof {
            assert(s@.skip(i as int)[0] == s@[i as int]);
            lemma_skip_skip(s@, i as int, 1);
        }
        if is_ws_exec(c) {
            skip_ws(s, i + 1)
        } else {
            i
        }
    } else {
        i
    }
}

/// Scans a string body starting just after the opening quote at `i - 1`,
/// returning the decoded content and the position after the closing quote.
#[verifier::rlimit(100)]
#[verifier::spinoff_prover]
pub fn scan_string(s: &Vec<char>, i: usize) -> (r: Option<(Vec<char>, usize)>)
    requires
        i <= s.len(),
    ensures
        match r {
            Some((t, j)) => i < j <= s.len() && str_body(s@.skip(i as int)) == Some(
                (t@, (j - i) as nat),
            ),
            None => str_body(s@.skip(i as int)) is None,
        },
    decreases s.len() - i,
{
    proof {
        assert(s@.skip(i as int).len() == s.len() - i);
    }
    if i >= s.len() {
        None
    } else {
        let c = s[i];
        proof {
            assert(s@.skip(i as int)[0] == s@[i as int]);
        }
        if c == '"' {
            let t: Vec<char> = Vec::new();
            proof {
                assert(t@ =~= Seq::<char>::empty());
            }
            Some((t, i + 1))
        } else if c == '\\' {
            if s.len() - i >= 2 {
                let e = s[i + 1];
                proof {
                    assert(s@.skip(i as int)[1] == s@[i + 1]);
                }
                if e == 'u' {
                    if s.len() - i >= 6 && is_hex_exec(s[i + 2]) && is_hex_exec(s[i + 3])
                        && is_hex_exec(s[i + 4]) && is_hex_exec(s[i + 5]) {
                        proof {
                            assert(s@.skip(i as int)[2] == s@[i + 2]);
                            assert(s@.skip(i as int)[3] == s@[i + 3]);
                            assert(s@.skip(i as int)[4] == s@[i + 4]);
                            assert(s@.skip(i as int)[5] == s@[i + 5]);
                        }
                        let v: u32 = ((hex_val_exec(s[i + 2]) * 16 + hex_val_exec(s[i + 3])) * 16
                            + hex_val_exec(s[i + 4])) * 16 + hex_val_exec(s[i + 5]);
                        if !(0xD800 <= v && v <= 0xDFFF) {
                            proof {
                                lemma_skip_skip(s@, i as int, 6);
                            }
                            match char_from_code(v) {
                                Some(c0) => {
                                    match scan_string(s, i + 6) {
                                        Some((t, j)) => {
                                            let mut t = t;
                                            let mut out: Vec<char> = Vec::new();
                                            out.push(c0);
                                            out.append(&mut t);
                                            proof {
                                                assert(out@ =~= seq![c0]
                                                    + str_body(s@.skip(i + 6)).unwrap().0);
                                            }
                                            Some((out, j))
                                        },
                                        None => None,
                                    }
                                },
                                None => {
                                    proof {
                                        assert(false);
                                    }
                                    None
                                },
                            }
                        } else {
                            None
                        }
                    } else {
                        None
                    }
                } else {
                    match simple_unescape_exec(e) {
                        Some(c0) => {
                            proof {
                                lemma_skip_skip(s@, i as int, 2);
                            }
                            match scan_string(s, i + 2) {
                                Some((t, j)) => {
                                    let mut t = t;
                                    let mut out: Vec<char> = Vec::new();
                                    out.push(c0);
                                    out.append(&mut t);
                                    proof {
                                        assert(out@ =~= seq![c0] + str_body(
                                            s@.skip(i + 2),
                                        ).unwrap().0);
                                    }
                                    Some((out, j))
                                },
                                None => None,
                            }
                        },
                        None => None,
                    }
                }
            } else {
                None
            }
        } else if c as u32 >= 0x20 {
            proof {
                lemma_skip_skip(s@, i as int, 1);
            }
            match scan_string(s, i + 1) {
                Some((t, j)) => {
                    let mut t = t;
                    let mut out: Vec<char> = Vec::new();
                    out.push(c);
                    out.append(&mut t);
                    proof {
                        assert(out@ =~= seq![c] + str_body(s@.skip(i + 1)).unwrap().0);
                    }
                    Some((out, j))
                },
                None => None,
            }
        } else {
            None
        }
    }
}

/// First position at or after `i` holding a non-digit character.
#[verifier::rlimit(100)]
#[verifier::spinoff_prover]
pub fn digits_end(s: &Vec<char>, i: usize) -> (j: usize)
    requires
        i <= s.len(),
    ensures
        i <= j <= s.len(),
        j - i == digits_len(s@.skip(i as int)),
    decreases s.len() - i,
{
    proof {
        assert(s@.skip(i as int).len() == s.len() - i);
    }
    if i < s.len() {
        let c = s[i];
        proof {
            assert(s@.skip(i as int)[0] == s@[i as int]);
            lemma_skip_skip(s@, i as int, 1);
        }
        if is_digit_exec(c) {
            digits_end(s, i + 1)
        } else {
            i
        }
    } else {
        i
    }
}

/// End of a JSON number starting at `i`.
#[verifier::rlimit(60)]
#[verifier::spinoff_prover]
pub fn scan_number(s: &Vec<char>, i: usize) -> (r: Option<usize>)
    requires
        i <= s.len(),
    ensures
        match r {
            Some(j) => i < j <= s.len() && number_len(s@.skip(i as int)) == Some((j - i) as nat),
            None => number_len(s@.skip(i as int)) is None,
        },
{
    let ghost ss = s@.skip(i as int);
    proof {
        assert(ss.len() == s.len() - i);
    }
    let i0: usize = if i < s.len() && s[i] == '-' {
        proof {
            assert(ss[0] == s@[i as int]);
        }
        i + 1
    } else {
        proof {
            if i < s.len() {
                assert(ss[0] == s@[i as int]);
            }
        }
        i
    };
    if i0 < s.len() && is_digit_exec(s[i0]) {
        proof {
            assert(ss[i0 - i] == s@[i0 as int]);
            lemma_skip_skip(s@, i as int, i0 - i);
        }
        let p1: usize = if s[i0] == '0' {
            i0 + 1
        } else {
            digits_end(s, i0)
        };
        proof {
            lemma_digits_len_le(s@.skip(i0 as int));
        }
        let p2: Option<usize> = if p1 < s.len() && s[p1] == '.' {
            proof {
                assert(ss[p1 - i] == s@[p1 as int]);
                lemma_skip_skip(s@, i as int, p1 + 1 - i);
            }
            let fe = digits_end(s, p1 + 1);
            if fe > p1 + 1 {
                Some(fe)
            } else {
                None
            }
        } else {
            proof {
                if p1 < s.len() {
                    assert(ss[p1 - i] == s@[p1 as int]);
                }
            }
            Some(p1)
        };
        match p2 {
            None => None,
            Some(q) => {
                if q < s.len() && (s[q] == 'e' || s[q] == 'E') {
                    proof {
                        assert(ss[q - i] == s@[q as int]);
                    }
                    let r0: usize = if q + 1 < s.len() && (s[q + 1] == '+' || s[q + 1] == '-') {
                        proof {
                            assert(ss[q + 1 - i] == s@[q + 1]);
                        }
                        q + 2
                    } else {
                        proof {
                            if q + 1 < s.len() {
                                assert(ss[q + 1 - i] == s@[q + 1]);
                            }
                        }
                        q + 1
                    };
                    proof {
                        lemma_skip_skip(s@, i as int, r0 - i);
                    }
                    let ee = digits_end(s, r0);
                    if ee > r0 {
                        Some(ee)
                    } else {
                        None
                    }
                } else {
                    proof {
                        if q < s.len() {
                            assert(ss[q - i] == s@[q as int]);
                        }
                    }
                    Some(q)
                }
            },
        }
    } else {
        proof {
            if i0 < s.len() {
                assert(ss[i0 - i] == s@[i0 as int]);
            }
        }
        None
    }
}

/// End of the JSON value starting at `i`.
#[verifier::rlimit(100)]
#[verifier::spinoff_prover]
pub fn skip_value(s: &Vec<char>, i: usize) -> (r: Option<usize>)
    requires
        i <= s.len(),
    ensures
        match r {
            Some(j) => i < j <= s.len() && value_len(s@.skip(i as int)) == Some((j - i) as nat),
            None => value_len(s@.skip(i as int)) is None,
        },
    decreases s.len() - i, 2int,
{
    let ghost ss = s@.skip(i as int);
    proof {
        assert(ss.len() == s.len() - i);
    }
    if i >= s.len() {
        None
    } else {
        let c = s[i];
        proof {
            assert(ss[0] == s@[i as int]);
        }
        if c == '"' {
            proof {
                lemma_skip_skip(s@, i as int, 1);
            }
            match scan_string(s, i + 1) {
                Some((_t, j)) => Some(j),
                None => None,
            }
        } else if c == '{' {
            proof {
                lemma_skip_skip(s@, i as int, 1);
            }
            let w = skip_ws(s, i + 1);
            if w < s.len() {
                proof {
                    assert(ss[w - i] == s@[w as int]);
                }
                if s[w] == '}' {
                    Some(w + 1)
                } else {
                    proof {
                        lemma_skip_skip(s@, i as int, w - i);
                    }
                    match skip_members(s, w) {
                        Some(j) => Some(j),
                        None => None,
                    }
                }
            } else {
                None
            }
        } else if c == '[' {
            proof {
                lemma_skip_skip(s@, i as int, 1);
            }
            let w = skip_ws(s, i + 1);
            if w < s.len() {
                proof {
                    assert(ss[w - i] == s@[w as int]);
                }
                if s[w] == ']' {
                    Some(w + 1)
                } else {
                    proof {
                        lemma_skip_skip(s@, i as int, w - i);
                    }
                    match skip_elements(s, w) {
                        Some(j) => Some(j),
                        None => None,
                    }
                }
            } else {
                None
            }
        } else if c == 't' {
            if s.len() - i >= 4 {
                proof {
                    assert(ss[1] == s@[i + 1]);
                    assert(ss[2] == s@[i + 2]);
                    assert(ss[3] == s@[i + 3]);
                }
                if s[i + 1] == 'r' && s[i + 2] == 'u' && s[i + 3] == 'e' {
                    Some(i + 4)
                } else {
                    None
                }
            } else {
                None
            }
        } else if c == 'f' {
            if s.len() - i >= 5 {
                proof {
                    assert(ss[1] == s@[i + 1]);
                    assert(ss[2] == s@[i + 2]);
                    assert(ss[3] == s@[i + 3]);
                    assert(ss[4] == s@[i + 4]);
                }
                if s[i + 1] == 'a' && s[i + 2] == 'l' && s[i + 3] == 's' && s[i + 4] == 'e' {
                    Some(i + 5)
                } else {
                    None
                }
            } else {
                None
            }
        } else if c == 'n' {
            if s.len() - i >= 4 {
                proof {
                    assert(ss[1] == s@[i + 1]);
                    assert(ss[2] == s@[i + 2]);
                    assert(ss[3] == s@[i + 3]);
                }
                if s[i + 1] == 'u' && s[i + 2] == 'l' && s[i + 3] == 'l' {
                    Some(i + 4)
                } else {
                    None
                }
            } else {
                None
            }
        } else {
            scan_number(s, i)
        }
    }
}

/// End of the non-empty member list starting at `i` (first key's quote).
#[verifier::rlimit(100)]
#[verifier::spinoff_prover]
pub fn skip_members(s: &Vec<char>, i: usize) -> (r: Option<usize>)
    requires
        i <= s.len(),
    ensures
        match r {
            Some(j) => i < j <= s.len() && members_len(s@.skip(i as int)) == Some((j - i) as nat),
            None => members_len(s@.skip(i as int)) is None,
        },
    decreases s.len() - i, 1int,
{
    let ghost ss = s@.skip(i as int);
    proof {
        assert(ss.len() == s.len() - i);
    }
    if i < s.len() && s[i] == '"' {
        proof {
            assert(ss[0] == s@[i as int]);
            lemma_skip_skip(s@, i as int, 1);
        }
        match scan_string(s, i + 1) {
            Some((_k, i1)) => {
                proof {
                    lemma_skip_skip(s@, i as int, i1 - i);
                }
                let i2 = skip_ws(s, i1);
                if i2 < s.len() && s[i2] == ':' {
                    proof {
                        assert(ss[i2 - i] == s@[i2 as int]);
                        lemma_skip_skip(s@, i as int, i2 + 1 - i);
                    }
                    let i3 = skip_ws(s, i2 + 1);
                    proof {
                        lemma_skip_skip(s@, i as int, i3 - i);
                    }
                    match skip_value(s, i3) {
                        Some(i4) => {
                            proof {
                                lemma_skip_skip(s@, i as int, i4 - i);
                            }
                            let i5 = skip_ws(s, i4);
                            if i5 < s.len() && s[i5] == ',' {
                                proof {
                                    assert(ss[i5 - i] == s@[i5 as int]);
                                    lemma_skip_skip(s@, i as int, i5 + 1 - i);
                                }
                                let i6 = skip_ws(s, i5 + 1);
                                proof {
                                    lemma_skip_skip(s@, i as int, i6 - i);
                                }
                                match skip_members(s, i6) {
                                    Some(j) => Some(j),
                                    None => None,
                                }
                            } else if i5 < s.len() && s[i5] == '}' {
                                proof {
                                    assert(ss[i5 - i] == s@[i5 as int]);
                                }
                                Some(i5 + 1)
                            } else {
                                proof {
                                    if i5 < s.len() {
                                        assert(ss[i5 - i] == s@[i5 as int]);
                                    }
                                }
                                None
                            }
                        },
                        None => None,
                    }
                } else {
                    proof {
                        if i2 < s.len() {
                            assert(ss[i2 - i] == s@[i2 as int]);
                        }
                    }
                    None
                }
            },
            None => None,
        }
    } else {
        proof {
            if i < s.len() {
                assert(ss[0] == s@[i as int]);
            }
        }
        None
    }
}

/// End of the non-empty element list starting at `i` (first element).
#[verifier::rlimit(100)]
#[verifier::spinoff_prover]
pub fn skip_elements(s: &Vec<char>, i: usize) -> (r: Option<usize>)
    requires
        i <= s.len(),
    ensures
        match r {
            Some(j) => i < j <= s.len() && elements_len(s@.skip(i as int)) == Some((j - i) as nat),
            None => elements_len(s@.skip(i as int)) is None,
        },
    decreases s.len() - i, 3int,
{
    let ghost ss = s@.skip(i as int);
    proof {
        assert(ss.len() == s.len() - i);
    }
    match skip_value(s, i) {
        Some(i0) => {
            proof {
                lemma_skip_skip(s@, i as int, i0 - i);
            }
            let i1 = skip_ws(s, i0);
            if i1 < s.len() && s[i1] == ',' {
                proof {
                    assert(ss[i1 - i] == s@[i1 as int]);
                    lemma_skip_skip(s@, i as int, i1 + 1 - i);
                }
                let i2 = skip_ws(s, i1 + 1);
                proof {
                    lemma_skip_skip(s@, i as int, i2 - i);
                }
                match skip_elements(s, i2) {
                    Some(j) => Some(j),
                    None => None,
                }
            } else if i1 < s.len() && s[i1] == ']' {
                proof {
                    assert(ss[i1 - i] == s@[i1 as int]);
                }
                Some(i1 + 1)
            } else {
                proof {
                    if i1 < s.len() {
                        assert(ss[i1 - i] == s@[i1 as int]);
                    }
                }
                None
            }
        },
        None => None,
    }
}

/// A whole document: one value, surrounded only by whitespace.
pub open spec fn valid_doc(s: Seq<char>) -> bool {
    let w = ws_len(s);
    w <= s.len() && match value_len(s.skip(w as int)) {
        Some(n) => {
            let e = w + n;
            e <= s.len() && ws_len(s.skip(e as int)) == s.len() - e
        },
        None => false,
    }
}

/// Whether the whole character vector is a well-formed JSON document.
#[verifier::rlimit(100)]
#[verifier::spinoff_prover]
pub fn doc_check(s: &Vec<char>) -> (b: bool)
    ensures
        b == valid_doc(s@),
{
    proof {
        assert(s@.skip(0) =~= s@);
    }
    let w = skip_ws(s, 0);
    match skip_value(s, w) {
        Some(e) => {
            let z = skip_ws(s, e);
            z == s.len()
        },
        None => false,
    }
}

} // verus!
