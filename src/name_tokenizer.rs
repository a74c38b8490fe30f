use vstd::prelude::*;

use crate::error::Error;

verus! {

/// An ASCII letter or digit.
pub open spec fn is_alnum(b: u8) -> bool {
    (0x30 <= b <= 0x39) || (0x41 <= b <= 0x5a) || (0x61 <= b <= 0x7a)
}

pub open spec fn is_digit(b: u8) -> bool {
    0x30 <= b <= 0x39
}

/// The length of the leading run of `s` whose bytes are (or are not) alphanumeric.
pub open spec fn run_len(s: Seq<u8>, alnum: bool) -> nat
    decreases s.len(),
{
    if s.len() == 0 || is_alnum(s[0]) != alnum {
        0
    } else {
        1 + run_len(s.drop_first(), alnum)
    }
}

/// A name split into raw tokens: maximal runs of alphanumeric and of other bytes.
pub open spec fn raw_tokens(s: Seq<u8>) -> Seq<Seq<u8>>
    decreases s.len(),
{
    if s.len() == 0 {
        Seq::empty()
    } else {
        let k = run_len(s, is_alnum(s[0]));
        if k == 0 || k > s.len() {
            Seq::empty()
        } else {
            seq![s.take(k as int)] + raw_tokens(s.skip(k as int))
        }
    }
}

proof fn lemma_run_len(s: Seq<u8>, alnum: bool)
    ensures
        run_len(s, alnum) <= s.len(),
        forall|i: int| 0 <= i < run_len(s, alnum) ==> is_alnum(s[i]) == alnum,
        run_len(s, alnum) < s.len() ==> is_alnum(s[run_len(s, alnum) as int]) != alnum,
    decreases s.len(),
{
    if s.len() > 0 && is_alnum(s[0]) == alnum {
        lemma_run_len(s.drop_first(), alnum);
        assert forall|i: int| 0 <= i < run_len(s, alnum) implies is_alnum(s[i]) == alnum by {
            if i > 0 {
                assert(s[i] == s.drop_first()[i - 1]);
            }
        }
    }
}

fn is_alnum_exec(b: u8) -> (r: bool)
    ensures
        r == is_alnum(b),
{
    (0x30 <= b && b <= 0x39) || (0x41 <= b && b <= 0x5a) || (0x61 <= b && b <= 0x7a)
}

proof fn lemma_run_len_from(s: Seq<u8>, start: int, alnum: bool, end: int)
    requires
        0 <= start <= end <= s.len(),
        forall|i: int| start <= i < end ==> is_alnum(s[i]) == alnum,
        end == s.len() || is_alnum(s[end]) != alnum,
    ensures
        run_len(s.skip(start), alnum) == end - start,
    decreases end - start,
{
    let t = s.skip(start);
    if start < end {
        assert(t.drop_first() =~= s.skip(start + 1));
        lemma_run_len_from(s, start + 1, alnum, end);
    } else if end < s.len() {
        assert(t[0] == s[end]);
    }
}

/// Splits a name into raw tokens.
pub fn tokenize(name: &[u8]) -> (r: Vec<Vec<u8>>)
    ensures
        r@.len() == raw_tokens(name@).len(),
        forall|i: int| 0 <= i < r@.len() ==> r@[i]@ == raw_tokens(name@)[i],
{
    let mut out: Vec<Vec<u8>> = Vec::new();
    let mut start: usize = 0;
    assert(name@.skip(0) =~= name@);
    while start < name.len()
        invariant
            start <= name@.len(),
            out@.len() + raw_tokens(name@.skip(start as int)).len() == raw_tokens(name@).len(),
            forall|i: int| 0 <= i < out@.len() ==> out@[i]@ == raw_tokens(name@)[i],
            forall|i: int| 0 <= i < raw_tokens(name@.skip(start as int)).len() ==> raw_tokens(name@.skip(start as int))[i] == raw_tokens(name@)[out@.len() + i],
        decreases name@.len() - start,
    {
        let alnum = is_alnum_exec(name[start]);
        let mut end: usize = start;
        while end < name.len() && is_alnum_exec(name[end]) == alnum
            invariant
                start <= end <= name@.len(),
                forall|i: int| start <= i < end ==> is_alnum(name@[i]) == alnum,
            decreases name@.len() - end,
        {
            end += 1;
        }
        let ghost rest = name@.skip(start as int);
        proof {
            lemma_run_len_from(name@, start as int, alnum, end as int);
            assert(rest[0] == name@[start as int]);
            assert(rest.skip((end - start) as int) =~= name@.skip(end as int));
            assert(rest.take((end - start) as int) =~= name@.subrange(start as int, end as int));
        }
        let tok = vstd::slice::slice_to_vec(vstd::slice::slice_subrange(name, start, end));
        proof {
            let k = (end - start) as nat;
            lemma_run_len(rest, alnum);
            assert(run_len(rest, is_alnum(rest[0])) == k);
            assert(raw_tokens(rest) == seq![rest.take(k as int)] + raw_tokens(rest.skip(k as int)));
            assert(raw_tokens(rest)[0] == tok@);
            assert forall|i: int| 0 <= i < raw_tokens(name@.skip(end as int)).len() implies raw_tokens(name@.skip(end as int))[i] == raw_tokens(name@)[out@.len() + 1 + i] by {
                assert(raw_tokens(rest)[1 + i] == raw_tokens(name@.skip(end as int))[i]);
            }
        }
        let ghost old_len = out@.len();
        out.push(tok);
        proof {
            assert(out@[old_len as int]@ == raw_tokens(name@)[old_len as int]);
        }
        start = end;
    }
    proof {
        assert(name@.skip(start as int).len() == 0);
    }
    out
}

} // verus!

verus! {

/// The value of a run of decimal digits, if every byte is one and the value fits a `u32`.
pub open spec fn digits_value(t: Seq<u8>) -> Option<nat>
    decreases t.len(),
{
    if t.len() == 0 {
        None
    } else if !is_digit(t.last()) {
        None
    } else if t.len() == 1 {
        Some((t.last() - 0x30) as nat)
    } else {
        match digits_value(t.drop_last()) {
            Some(v) => if v * 10 + (t.last() - 0x30) <= u32::MAX {
                Some((v * 10 + (t.last() - 0x30)) as nat)
            } else {
                None
            },
            None => None,
        }
    }
}

fn parse_digits(t: &[u8]) -> (r: Option<u32>)
    ensures
        match digits_value(t@) {
            Some(v) => r == Some(v as u32),
            None => r is None,
        },
{
    if t.len() == 0 {
        return None;
    }
    let mut v: u64 = 0;
    let mut i: usize = 0;
    while i < t.len()
        invariant
            1 <= t@.len(),
            i <= t@.len(),
            i > 0 ==> digits_value(t@.take(i as int)) == Some(v as nat),
            i == 0 ==> v == 0,
            v <= u32::MAX,
        decreases t@.len() - i,
    {
        assert(t@.take(i + 1).drop_last() =~= t@.take(i as int));
        if t[i] < 0x30 || t[i] > 0x39 {
            proof {
                lemma_digits_fail(t@, (i + 1) as nat);
            }
            return None;
        }
        let nv = v * 10 + (t[i] - 0x30) as u64;
        if nv > u32::MAX as u64 {
            proof {
                if i > 0 {
                    lemma_digits_fail(t@, (i + 1) as nat);
                }
            }
            return None;
        }
        v = nv;
        i += 1;
    }
    assert(t@.take(t@.len() as int) =~= t@);
    Some(v as u32)
}

proof fn lemma_digits_fail(t: Seq<u8>, k: nat)
    requires
        1 <= k <= t.len(),
        digits_value(t.take(k as int)) is None,
    ensures
        digits_value(t) is None,
    decreases t.len() - k,
{
    if k < t.len() {
        assert(t.take((k + 1) as int).drop_last() =~= t.take(k as int));
        lemma_digits_fail(t, k + 1);
    } else {
        assert(t.take(k as int) =~= t);
    }
}

/// A token of a name, as the tokenizer emits it.
#[derive(Clone, Debug, PartialEq, Eq)]
pub enum Token {
    String(Vec<u8>),
    Char(u8),
    PaddedDigits(u32, usize),
    Dup(usize),
    Diff(usize),
    Digits(u32),
    Delta(u32, u8),
    Delta0(u32, u8),
    Match,
    End,
}

/// The mathematical content of a token.
pub enum TokenModel {
    String(Seq<u8>),
    Char(u8),
    PaddedDigits(u32, usize),
    Dup(usize),
    Diff(usize),
    Digits(u32),
    Delta(u32, u8),
    Delta0(u32, u8),
    Match,
    End,
}

impl View for Token {
    type V = TokenModel;

    open spec fn view(&self) -> TokenModel {
        match self {
            Token::String(s) => TokenModel::String(s@),
            Token::Char(c) => TokenModel::Char(*c),
            Token::PaddedDigits(n, w) => TokenModel::PaddedDigits(*n, *w),
            Token::Dup(d) => TokenModel::Dup(*d),
            Token::Diff(d) => TokenModel::Diff(*d),
            Token::Digits(n) => TokenModel::Digits(*n),
            Token::Delta(n, d) => TokenModel::Delta(*n, *d),
            Token::Delta0(n, d) => TokenModel::Delta0(*n, *d),
            Token::Match => TokenModel::Match,
            Token::End => TokenModel::End,
        }
    }
}

/// A raw token on its own: zero-padded digits, digits, a single byte, or a string.
pub open spec fn fresh_token(t: Seq<u8>) -> TokenModel {
    if t.len() > 0 && t[0] == 0x30 && digits_value(t) is Some {
        TokenModel::PaddedDigits(digits_value(t)->Some_0 as u32, t.len() as usize)
    } else if digits_value(t) is Some {
        TokenModel::Digits(digits_value(t)->Some_0 as u32)
    } else if t.len() == 1 {
        TokenModel::Char(t[0])
    } else {
        TokenModel::String(t)
    }
}

/// A raw token against the previous name's token at the same place: the same
/// text matches; digits up by at most 255 from the previous number are a
/// delta (`Delta0` for zero-padded digits of the same width); else fresh.
pub open spec fn diff_token(prev_raw: Seq<u8>, prev: TokenModel, t: Seq<u8>) -> TokenModel {
    if t == prev_raw {
        TokenModel::Match
    } else {
        match prev {
            TokenModel::Digits(n) | TokenModel::Delta(n, _) => if digits_value(t) is Some && n <= digits_value(t)->Some_0 <= n + 255 {
                TokenModel::Delta(digits_value(t)->Some_0 as u32, (digits_value(t)->Some_0 - n) as u8)
            } else {
                fresh_or_delta0(prev_raw, prev, t)
            },
            _ => fresh_or_delta0(prev_raw, prev, t),
        }
    }
}

pub open spec fn fresh_or_delta0(prev_raw: Seq<u8>, prev: TokenModel, t: Seq<u8>) -> TokenModel {
    match prev {
        TokenModel::PaddedDigits(n, _) | TokenModel::Delta0(n, _) => if t.len() == prev_raw.len() && digits_value(t) is Some && n <= digits_value(t)->Some_0 <= n + 255 {
            TokenModel::Delta0(digits_value(t)->Some_0 as u32, (digits_value(t)->Some_0 - n) as u8)
        } else {
            fresh_token(t)
        },
        _ => fresh_token(t),
    }
}

fn fresh(t: &Vec<u8>) -> (r: Token)
    ensures
        r@ == fresh_token(t@),
{
    let d = parse_digits(t.as_slice());
    match d {
        Some(n) => if t.len() > 0 && t[0] == 0x30 {
            Token::PaddedDigits(n, t.len())
        } else {
            Token::Digits(n)
        },
        None => if t.len() == 1 {
            Token::Char(t[0])
        } else {
            Token::String(t.clone())
        },
    }
}

fn bytes_eq(a: &Vec<u8>, b: &Vec<u8>) -> (r: bool)
    ensures
        r == (a@ == b@),
{
    if a.len() != b.len() {
        return false;
    }
    let mut i: usize = 0;
    while i < a.len()
        invariant
            i <= a@.len(),
            a@.len() == b@.len(),
            forall|k: int| 0 <= k < i ==> a@[k] == b@[k],
        decreases a@.len() - i,
    {
        if a[i] != b[i] {
            return false;
        }
        i += 1;
    }
    assert(a@ =~= b@);
    true
}

fn diff(prev_raw: &Vec<u8>, prev: &Token, t: &Vec<u8>) -> (r: Token)
    ensures
        r@ == diff_token(prev_raw@, prev@, t@),
{
    if bytes_eq(t, prev_raw) {
        return Token::Match;
    }
    let d = parse_digits(t.as_slice());
    match prev {
        Token::Digits(n) | Token::Delta(n, _) => {
            if let Some(m) = d {
                if *n <= m && m as u64 <= *n as u64 + 255 {
                    return Token::Delta(m, (m - *n) as u8);
                }
            }
        },
        _ => {},
    }
    match prev {
        Token::PaddedDigits(n, _) | Token::Delta0(n, _) => {
            if let Some(m) = d {
                if t.len() == prev_raw.len() && *n <= m && m as u64 <= *n as u64 + 255 {
                    return Token::Delta0(m, (m - *n) as u8);
                }
            }
        },
        _ => {},
    }
    fresh(t)
}

} // verus!

verus! {

/// The first earlier name equal to name `i`, if any.
pub open spec fn earlier_same(names: Seq<Seq<u8>>, i: int) -> Option<int> {
    if exists|j: int| 0 <= j < i && names[j] == names[i] {
        Some(choose|j: int| 0 <= j < i && names[j] == names[i] && forall|k: int| 0 <= k < j ==> names[k] != names[i])
    } else {
        None
    }
}

/// The name that name `i` is coded against: its first earlier duplicate, else the name before it.
pub open spec fn prev_index(names: Seq<Seq<u8>>, i: int) -> int {
    match earlier_same(names, i) {
        Some(j) => j,
        None => i - 1,
    }
}

proof fn lemma_earlier_same(names: Seq<Seq<u8>>, i: int)
    ensures
        earlier_same(names, i) is Some ==> ({
            let j = earlier_same(names, i)->Some_0;
            0 <= j < i && names[j] == names[i] && forall|k: int| 0 <= k < j ==> names[k] != names[i]
        }),
        earlier_same(names, i) is None ==> forall|j: int| 0 <= j < i ==> names[j] != names[i],
{
    if exists|j: int| 0 <= j < i && names[j] == names[i] {
        let w = choose|j: int| 0 <= j < i && names[j] == names[i];
        lemma_first_same(names, i, w);
    }
}

proof fn lemma_first_same(names: Seq<Seq<u8>>, i: int, w: int)
    requires
        0 <= w < i,
        names[w] == names[i],
    ensures
        exists|j: int| 0 <= j < i && names[j] == names[i] && forall|k: int| 0 <= k < j ==> names[k] != names[i],
    decreases w,
{
    if exists|k: int| 0 <= k < w && names[k] == names[i] {
        let k = choose|k: int| 0 <= k < w && names[k] == names[i];
        lemma_first_same(names, i, k);
    }
}

/// The tokens of name `i`: each raw token against the token at the same place
/// of the name it is coded against (the first name: each on its own), then End.
pub open spec fn name_tokens(names: Seq<Seq<u8>>, i: int) -> Seq<TokenModel>
    decreases i,
{
    let raw = raw_tokens(names[i]);
    if i <= 0 {
        Seq::new(raw.len(), |k: int| fresh_token(raw[k])).push(TokenModel::End)
    } else {
        let p = prev_index(names, i);
        if p < 0 || p >= i {
            Seq::empty()
        } else {
            let praw = raw_tokens(names[p]);
            let ptok = name_tokens(names, p);
            Seq::new(
                raw.len(),
                |k: int| if k < praw.len() && k < ptok.len() {
                    diff_token(praw[k], ptok[k], raw[k])
                } else {
                    fresh_token(raw[k])
                },
            ).push(TokenModel::End)
        }
    }
}

/// How name `i` is coded: as a duplicate `i - j` back, or as a diff against
/// the name before it (the first name: a diff of 0).
pub open spec fn name_mode(names: Seq<Seq<u8>>, i: int) -> TokenModel {
    if i <= 0 {
        TokenModel::Diff(0)
    } else {
        match earlier_same(names, i) {
            Some(j) => TokenModel::Dup((i - j) as usize),
            None => TokenModel::Diff(1),
        }
    }
}

/// A name's coding: its mode, its raw tokens and its tokens.
pub struct NameDiff {
    pub mode: Token,
    pub raw_tokens: Vec<Vec<u8>>,
    pub tokens: Vec<Token>,
}

pub open spec fn raw_view(v: Seq<Vec<u8>>) -> Seq<Seq<u8>> {
    Seq::new(v.len(), |i: int| v[i]@)
}

pub open spec fn tokens_view(v: Seq<Token>) -> Seq<TokenModel> {
    Seq::new(v.len(), |i: int| v[i]@)
}

fn find_earlier(names: &Vec<Vec<u8>>, i: usize) -> (r: Option<usize>)
    requires
        i < names@.len(),
    ensures
        match earlier_same(raw_view(names@), i as int) {
            Some(j) => r == Some(j as usize),
            None => r is None,
        },
        r is Some ==> r->Some_0 < i,
{
    proof {
        lemma_earlier_same(raw_view(names@), i as int);
    }
    let mut j: usize = 0;
    while j < i
        invariant
            j <= i < names@.len(),
            forall|k: int| 0 <= k < j ==> names@[k]@ != names@[i as int]@,
        decreases i - j,
    {
        if bytes_eq(&names[j], &names[i]) {
            proof {
                let f = earlier_same(raw_view(names@), i as int)->Some_0;
                assert(raw_view(names@)[j as int] == raw_view(names@)[i as int]);
                if f < j {
                    assert(raw_view(names@)[f] == names@[f]@);
                }
            }
            return Some(j);
        }
        j += 1;
    }
    proof {
        if earlier_same(raw_view(names@), i as int) is Some {
            let f = earlier_same(raw_view(names@), i as int)->Some_0;
            assert(raw_view(names@)[f] == names@[f]@);
        }
    }
    None
}

/// Codes each name against an earlier one: as a duplicate, or token by token.
pub fn build_diffs(names: &Vec<Vec<u8>>) -> (r: Vec<NameDiff>)
    ensures
        r@.len() == names@.len(),
        forall|i: int| 0 <= i < r@.len() ==> r@[i].mode@ == name_mode(raw_view(names@), i)
            && raw_view(r@[i].raw_tokens@) == raw_tokens(names@[i]@)
            && tokens_view(r@[i].tokens@) == name_tokens(raw_view(names@), i),
{
    let ghost ns = raw_view(names@);
    let mut diffs: Vec<NameDiff> = Vec::new();
    let mut i: usize = 0;
    while i < names.len()
        invariant
            i <= names@.len(),
            ns == raw_view(names@),
            diffs@.len() == i,
            forall|k: int| 0 <= k < i ==> diffs@[k].mode@ == name_mode(ns, k)
                && raw_view(diffs@[k].raw_tokens@) == raw_tokens(names@[k]@)
                && tokens_view(diffs@[k].tokens@) == name_tokens(ns, k),
        decreases names@.len() - i,
    {
        let raw = tokenize(names[i].as_slice());
        assert(raw_view(raw@) =~= raw_tokens(names@[i as int]@));
        assert(ns[i as int] == names@[i as int]@);
        let mut tokens: Vec<Token> = Vec::new();
        let mode: Token;
        if i == 0 {
            mode = Token::Diff(0);
            let mut k: usize = 0;
            while k < raw.len()
                invariant
                    k <= raw@.len(),
                    tokens@.len() == k,
                    forall|m: int| 0 <= m < k ==> tokens@[m]@ == fresh_token(raw@[m]@),
                decreases raw@.len() - k,
            {
                tokens.push(fresh(&raw[k]));
                k += 1;
            }
            tokens.push(Token::End);
            proof {
                assert(tokens_view(tokens@) =~= Seq::new(raw_tokens(ns[0]).len(), |m: int| fresh_token(raw_tokens(ns[0])[m])).push(TokenModel::End));
            }
        } else {
            let e = find_earlier(names, i);
            let p: usize = match e {
                Some(j) => {
                    mode = Token::Dup(i - j);
                    j
                },
                None => {
                    mode = Token::Diff(1);
                    i - 1
                },
            };
            let prev = &diffs[p];
            let mut k: usize = 0;
            while k < raw.len()
                invariant
                    k <= raw@.len(),
                    p < i,
                    tokens@.len() == k,
                    raw_view(prev.raw_tokens@) == raw_tokens(ns[p as int]),
                    tokens_view(prev.tokens@) == name_tokens(ns, p as int),
                    forall|m: int| 0 <= m < k ==> tokens@[m]@ == if m < raw_tokens(ns[p as int]).len() && m < name_tokens(ns, p as int).len() {
                        diff_token(raw_tokens(ns[p as int])[m], name_tokens(ns, p as int)[m], raw@[m]@)
                    } else {
                        fresh_token(raw@[m]@)
                    },
                decreases raw@.len() - k,
            {
                if k < prev.raw_tokens.len() && k < prev.tokens.len() {
                    proof {
                        assert(raw_view(prev.raw_tokens@)[k as int] == prev.raw_tokens@[k as int]@);
                        assert(tokens_view(prev.tokens@)[k as int] == prev.tokens@[k as int]@);
                    }
                    tokens.push(diff(&prev.raw_tokens[k], &prev.tokens[k], &raw[k]));
                } else {
                    tokens.push(fresh(&raw[k]));
                }
                k += 1;
            }
            tokens.push(Token::End);
            proof {
                lemma_earlier_same(ns, i as int);
                assert(prev_index(ns, i as int) == p as int);
                assert(tokens_view(tokens@) =~= name_tokens(ns, i as int));
            }
        }
        diffs.push(NameDiff { mode, raw_tokens: raw, tokens });
        i += 1;
    }
    diffs
}

} // verus!

verus! {

/// The code of each token type in the type stream.
pub open spec fn type_code(t: TokenModel) -> u8 {
    match t {
        TokenModel::String(_) => 1,
        TokenModel::Char(_) => 2,
        TokenModel::PaddedDigits(..) => 3,
        TokenModel::Dup(_) => 5,
        TokenModel::Diff(_) => 6,
        TokenModel::Digits(_) => 7,
        TokenModel::Delta(..) => 8,
        TokenModel::Delta0(..) => 9,
        TokenModel::Match => 10,
        TokenModel::End => 12,
    }
}

/// The ten byte streams of one token position.
#[derive(Clone, Debug, PartialEq, Eq)]
pub struct TokenWriter {
    pub type_writer: Vec<u8>,
    pub string_writer: Vec<u8>,
    pub char_writer: Vec<u8>,
    pub digits0_writer: Vec<u8>,
    pub dz_len_writer: Vec<u8>,
    pub dup_writer: Vec<u8>,
    pub diff_writer: Vec<u8>,
    pub digits_writer: Vec<u8>,
    pub delta_writer: Vec<u8>,
    pub delta0_writer: Vec<u8>,
}

/// A token can be written: a padded width fits a byte, a dup or diff distance a `u32`.
pub open spec fn token_writable(t: TokenModel) -> bool {
    match t {
        TokenModel::PaddedDigits(_, w) => w <= 255,
        TokenModel::Dup(d) => d <= u32::MAX,
        TokenModel::Diff(d) => d <= u32::MAX,
        _ => true,
    }
}

/// `b` is `a` with token `t` written: its type code, and its value in the
/// stream of its type (strings end in NUL; numbers are little-endian `u32`).
pub open spec fn wrote_token(a: TokenWriter, b: TokenWriter, t: TokenModel) -> bool {
    &&& b.type_writer@ == a.type_writer@.push(type_code(t))
    &&& b.string_writer@ == match t {
        TokenModel::String(s) => a.string_writer@ + s.push(0),
        _ => a.string_writer@,
    }
    &&& b.char_writer@ == match t {
        TokenModel::Char(c) => a.char_writer@.push(c),
        _ => a.char_writer@,
    }
    &&& b.digits0_writer@ == match t {
        TokenModel::PaddedDigits(n, _) => a.digits0_writer@ + crate::num::le_bytes(n as nat, 4),
        _ => a.digits0_writer@,
    }
    &&& b.dz_len_writer@ == match t {
        TokenModel::PaddedDigits(_, w) => a.dz_len_writer@.push(w as u8),
        _ => a.dz_len_writer@,
    }
    &&& b.dup_writer@ == match t {
        TokenModel::Dup(d) => a.dup_writer@ + crate::num::le_bytes(d as nat, 4),
        _ => a.dup_writer@,
    }
    &&& b.diff_writer@ == match t {
        TokenModel::Diff(d) => a.diff_writer@ + crate::num::le_bytes(d as nat, 4),
        _ => a.diff_writer@,
    }
    &&& b.digits_writer@ == match t {
        TokenModel::Digits(n) => a.digits_writer@ + crate::num::le_bytes(n as nat, 4),
        _ => a.digits_writer@,
    }
    &&& b.delta_writer@ == match t {
        TokenModel::Delta(_, d) => a.delta_writer@.push(d),
        _ => a.delta_writer@,
    }
    &&& b.delta0_writer@ == match t {
        TokenModel::Delta0(_, d) => a.delta0_writer@.push(d),
        _ => a.delta0_writer@,
    }
}

fn append_bytes(dst: &mut Vec<u8>, src: &Vec<u8>)
    ensures
        final(dst)@ == old(dst)@ + src@,
{
    let mut i: usize = 0;
    while i < src.len()
        invariant
            i <= src@.len(),
            dst@ == old(dst)@ + src@.take(i as int),
        decreases src@.len() - i,
    {
        dst.push(src[i]);
        i += 1;
        assert(dst@ =~= old(dst)@ + src@.take(i as int));
    }
    assert(src@.take(src@.len() as int) =~= src@);
}

impl TokenWriter {
    pub fn new() -> (r: TokenWriter)
        ensures
            r.type_writer@.len() == 0 && r.string_writer@.len() == 0 && r.char_writer@.len() == 0
                && r.digits0_writer@.len() == 0 && r.dz_len_writer@.len() == 0 && r.dup_writer@.len() == 0
                && r.diff_writer@.len() == 0 && r.digits_writer@.len() == 0 && r.delta_writer@.len() == 0
                && r.delta0_writer@.len() == 0,
    {
        TokenWriter {
            type_writer: Vec::new(),
            string_writer: Vec::new(),
            char_writer: Vec::new(),
            digits0_writer: Vec::new(),
            dz_len_writer: Vec::new(),
            dup_writer: Vec::new(),
            diff_writer: Vec::new(),
            digits_writer: Vec::new(),
            delta_writer: Vec::new(),
            delta0_writer: Vec::new(),
        }
    }

    /// Writes one token.
    pub fn write_token(&mut self, token: &Token) -> (r: Result<(), Error>)
        ensures
            token_writable(token@) ==> r is Ok && wrote_token(*old(self), *final(self), token@),
            !token_writable(token@) ==> r == Err::<(), Error>(Error::InvalidInput),
    {
        match token {
            Token::PaddedDigits(_, w) => if *w > 255 {
                return Err(Error::InvalidInput);
            },
            Token::Dup(d) | Token::Diff(d) => if *d > u32::MAX as usize {
                return Err(Error::InvalidInput);
            },
            _ => {},
        }
        let code: u8 = match token {
            Token::String(_) => 1,
            Token::Char(_) => 2,
            Token::PaddedDigits(..) => 3,
            Token::Dup(_) => 5,
            Token::Diff(_) => 6,
            Token::Digits(_) => 7,
            Token::Delta(..) => 8,
            Token::Delta0(..) => 9,
            Token::Match => 10,
            Token::End => 12,
        };
        self.type_writer.push(code);
        match token {
            Token::String(s) => {
                append_bytes(&mut self.string_writer, s);
                self.string_writer.push(0);
                assert(self.string_writer@ =~= old(self).string_writer@ + s@.push(0));
            },
            Token::Char(b) => self.char_writer.push(*b),
            Token::PaddedDigits(n, w) => {
                crate::num::write_u32_le(&mut self.digits0_writer, *n).unwrap();
                self.dz_len_writer.push(*w as u8);
            },
            Token::Dup(d) => {
                crate::num::write_u32_le(&mut self.dup_writer, *d as u32).unwrap();
            },
            Token::Diff(d) => {
                crate::num::write_u32_le(&mut self.diff_writer, *d as u32).unwrap();
            },
            Token::Digits(n) => {
                crate::num::write_u32_le(&mut self.digits_writer, *n).unwrap();
            },
            Token::Delta(_, d) => self.delta_writer.push(*d),
            Token::Delta0(_, d) => self.delta0_writer.push(*d),
            Token::Match => {},
            Token::End => {},
        }
        Ok(())
    }
}

} // verus!

verus! {

/// The tokens that token position `p` receives from the first `n` names:
/// each non-duplicate name's token at `p`, if it has one, in name order.
pub open spec fn position_tokens(names: Seq<Seq<u8>>, p: int, n: int) -> Seq<TokenModel>
    decreases n,
{
    if n <= 0 {
        Seq::empty()
    } else {
        let prev = position_tokens(names, p, n - 1);
        let i = n - 1;
        if name_mode(names, i) is Dup || p >= name_tokens(names, i).len() {
            prev
        } else {
            prev.push(name_tokens(names, i)[p])
        }
    }
}

/// The tokens of token position `p`, over all names.
pub fn tokens_at(diffs: &Vec<NameDiff>, p: usize, names: &Vec<Vec<u8>>) -> (r: Vec<Token>)
    requires
        diffs@.len() == raw_view(names@).len(),
        forall|i: int| 0 <= i < diffs@.len() ==> diffs@[i].mode@ == name_mode(raw_view(names@), i)
            && tokens_view(diffs@[i].tokens@) == name_tokens(raw_view(names@), i),
    ensures
        tokens_view(r@) == position_tokens(raw_view(names@), p as int, raw_view(names@).len() as int),
{
    let mut out: Vec<Token> = Vec::new();
    let mut i: usize = 0;
    while i < diffs.len()
        invariant
            i <= diffs@.len(),
            diffs@.len() == raw_view(names@).len(),
            forall|k: int| 0 <= k < diffs@.len() ==> diffs@[k].mode@ == name_mode(raw_view(names@), k)
                && tokens_view(diffs@[k].tokens@) == name_tokens(raw_view(names@), k),
            tokens_view(out@) == position_tokens(raw_view(names@), p as int, i as int),
        decreases diffs@.len() - i,
    {
        let d = &diffs[i];
        let is_dup = match d.mode {
            Token::Dup(_) => true,
            _ => false,
        };
        assert(tokens_view(d.tokens@).len() == d.tokens@.len());
        if !is_dup && p < d.tokens.len() {
            assert(tokens_view(d.tokens@)[p as int] == d.tokens@[p as int]@);
            out.push(d.tokens[p].clone_token());
            assert(tokens_view(out@) =~= position_tokens(raw_view(names@), p as int, i + 1));
        } else {
            assert(tokens_view(out@) =~= position_tokens(raw_view(names@), p as int, i + 1));
        }
        i += 1;
    }
    out
}

impl Token {
    /// A copy of the token.
    pub fn clone_token(&self) -> (r: Token)
        ensures
            r@ == self@,
    {
        match self {
            Token::String(s) => Token::String(s.clone()),
            Token::Char(c) => Token::Char(*c),
            Token::PaddedDigits(n, w) => Token::PaddedDigits(*n, *w),
            Token::Dup(d) => Token::Dup(*d),
            Token::Diff(d) => Token::Diff(*d),
            Token::Digits(n) => Token::Digits(*n),
            Token::Delta(n, d) => Token::Delta(*n, *d),
            Token::Delta0(n, d) => Token::Delta0(*n, *d),
            Token::Match => Token::Match,
            Token::End => Token::End,
        }
    }
}

/// The names of a NUL-separated list (a trailing NUL ends the last name).
pub open spec fn split_names(s: Seq<u8>) -> Seq<Seq<u8>>
    decreases s.len(),
{
    if s.len() == 0 {
        Seq::empty()
    } else if exists|k: int| 0 <= k < s.len() && s[k] == 0 {
        let k = choose|k: int| 0 <= k < s.len() && s[k] == 0 && forall|j: int| 0 <= j < k ==> s[j] != 0;
        if 0 <= k < s.len() {
            seq![s.take(k)] + split_names(s.skip(k + 1))
        } else {
            Seq::empty()
        }
    } else {
        seq![s]
    }
}

} // verus!

verus! {

/// The names of a NUL-separated list; an empty list holds one empty name.
pub open spec fn names_list(s: Seq<u8>) -> Seq<Seq<u8>> {
    if s.len() == 0 {
        seq![Seq::empty()]
    } else {
        split_names(s)
    }
}

proof fn lemma_split_step(s: Seq<u8>, k: int)
    requires
        0 <= k < s.len(),
        s[k] == 0,
        forall|j: int| 0 <= j < k ==> s[j] != 0,
    ensures
        split_names(s) == seq![s.take(k)] + split_names(s.skip(k + 1)),
{
    let c = choose|c: int| 0 <= c < s.len() && s[c] == 0 && forall|j: int| 0 <= j < c ==> s[j] != 0;
    if c < k {
        assert(s[c] == 0);
    }
    if c > k {
        assert(s[k] != 0);
    }
}

/// The first name of `src` from `start`, and where the rest begins.
#[verifier::rlimit(60)]
fn next_name(src: &[u8], start: usize) -> (r: (Vec<u8>, usize))
    requires
        start < src@.len(),
    ensures
        start < r.1 <= src@.len(),
        split_names(src@.skip(start as int)) == seq![r.0@] + split_names(src@.skip(r.1 as int)),
{
    let mut end: usize = start;
    while end < src.len() && src[end] != 0
        invariant
            start <= end <= src@.len(),
            forall|j: int| start <= j < end ==> src@[j] != 0,
        decreases src@.len() - end,
    {
        end += 1;
    }
    let ghost rest = src@.skip(start as int);
    let name = vstd::slice::slice_to_vec(vstd::slice::slice_subrange(src, start, end));
    if end < src.len() {
        proof {
            assert(rest[(end - start) as int] == 0);
            lemma_split_step(rest, (end - start) as int);
            assert(rest.take((end - start) as int) =~= name@);
            assert(rest.skip((end - start + 1) as int) =~= src@.skip(end + 1));
        }
        (name, end + 1)
    } else {
        proof {
            assert(!(exists|k: int| 0 <= k < rest.len() && rest[k] == 0)) by {
                if exists|k: int| 0 <= k < rest.len() && rest[k] == 0 {
                    let k = choose|k: int| 0 <= k < rest.len() && rest[k] == 0;
                    assert(src@[start + k] == 0);
                }
            }
            assert(rest =~= name@);
            assert(split_names(rest) == seq![rest]);
            assert(split_names(src@.skip(src@.len() as int)) =~= Seq::<Seq<u8>>::empty()) by {
                assert(src@.skip(src@.len() as int).len() == 0);
            }
            assert(seq![name@] + Seq::<Seq<u8>>::empty() =~= seq![name@]);
        }
        (name, end)
    }
}

/// Splits a NUL-separated list into names.
pub fn names_of(src: &[u8]) -> (r: Vec<Vec<u8>>)
    ensures
        raw_view(r@) == names_list(src@),
{
    let mut out: Vec<Vec<u8>> = Vec::new();
    if src.len() == 0 {
        out.push(Vec::new());
        assert(raw_view(out@) =~= names_list(src@));
        return out;
    }
    let mut start: usize = 0;
    assert(src@.skip(0) =~= src@);
    while start < src.len()
        invariant
            start <= src@.len(),
            src@.len() > 0,
            raw_view(out@) + split_names(src@.skip(start as int)) == split_names(src@),
        decreases src@.len() - start,
    {
        let (name, next) = next_name(src, start);
        let ghost before = raw_view(out@);
        out.push(name);
        proof {
            assert(raw_view(out@) =~= before.push(name@));
            assert(raw_view(out@) + split_names(src@.skip(next as int)) =~= before + split_names(src@.skip(start as int)));
        }
        start = next;
    }
    proof {
        assert(split_names(src@.skip(start as int)) =~= Seq::<Seq<u8>>::empty()) by {
            assert(src@.skip(start as int).len() == 0);
        }
        assert(raw_view(out@) =~= split_names(src@));
    }
    out
}

} // verus!

verus! {

/// Stream `t` (0 to 9) of a token position: type, string, char, digits0,
/// dz_len, dup, diff, digits, delta, delta0; its type code is `t`.
pub open spec fn stream_at(tw: TokenWriter, t: int) -> Seq<u8> {
    if t == 0 {
        tw.type_writer@
    } else if t == 1 {
        tw.string_writer@
    } else if t == 2 {
        tw.char_writer@
    } else if t == 3 {
        tw.digits0_writer@
    } else if t == 4 {
        tw.dz_len_writer@
    } else if t == 5 {
        tw.dup_writer@
    } else if t == 6 {
        tw.diff_writer@
    } else if t == 7 {
        tw.digits_writer@
    } else if t == 8 {
        tw.delta_writer@
    } else {
        tw.delta0_writer@
    }
}

fn stream_ref(tw: &TokenWriter, t: u8) -> (r: &Vec<u8>)
    requires
        t < 10,
    ensures
        r@ == stream_at(*tw, t as int),
{
    if t == 0 {
        &tw.type_writer
    } else if t == 1 {
        &tw.string_writer
    } else if t == 2 {
        &tw.char_writer
    } else if t == 3 {
        &tw.digits0_writer
    } else if t == 4 {
        &tw.dz_len_writer
    } else if t == 5 {
        &tw.dup_writer
    } else if t == 6 {
        &tw.diff_writer
    } else if t == 7 {
        &tw.digits_writer
    } else if t == 8 {
        &tw.delta_writer
    } else {
        &tw.delta0_writer
    }
}

/// Stream `t` of position `pos` is a non-empty copy of `buf`.
pub open spec fn duplicates_at(writers: Seq<TokenWriter>, pos: int, t: int, buf: Seq<u8>) -> bool {
    stream_at(writers[pos], t).len() > 0 && stream_at(writers[pos], t) == buf
}

/// The first stream, by position then type, of the positions before
/// `current_pos` that is a non-empty copy of `buf`.
pub fn find_duplicate_stream(writers: &Vec<TokenWriter>, current_pos: usize, buf: &Vec<u8>) -> (r: Option<(usize, u8)>)
    requires
        current_pos <= writers@.len(),
    ensures
        match r {
            Some((pos, t)) => pos < current_pos && t < 10 && duplicates_at(writers@, pos as int, t as int, buf@)
                && forall|p: int, u: int| 0 <= p < current_pos && 0 <= u < 10 && (p < pos || (p == pos && u < t))
                    ==> !duplicates_at(writers@, p, u, buf@),
            None => forall|p: int, u: int| 0 <= p < current_pos && 0 <= u < 10 ==> !duplicates_at(writers@, p, u, buf@),
        },
{
    let mut pos: usize = 0;
    while pos < current_pos
        invariant
            pos <= current_pos <= writers@.len(),
            forall|p: int, u: int| 0 <= p < pos && 0 <= u < 10 ==> !duplicates_at(writers@, p, u, buf@),
        decreases current_pos - pos,
    {
        let mut t: u8 = 0;
        while t < 10
            invariant
                t <= 10,
                pos < current_pos <= writers@.len(),
                forall|p: int, u: int| 0 <= p < pos && 0 <= u < 10 ==> !duplicates_at(writers@, p, u, buf@),
                forall|u: int| 0 <= u < t ==> !duplicates_at(writers@, pos as int, u, buf@),
            decreases 10 - t,
        {
            let s = stream_ref(&writers[pos], t);
            if s.len() > 0 && bytes_eq(s, buf) {
                return Some((pos, t));
            }
            t += 1;
        }
        pos += 1;
    }
    None
}

/// The marker written in place of a stream that repeats stream `dup_type`
/// of position `dup_pos`: the type byte with the duplicate flag (0x40; the
/// type stream is 0x80), the position, and the repeated stream's type.
pub fn duplicate_marker(ty: u8, dup_pos: usize, dup_type: u8) -> (r: Result<Vec<u8>, Error>)
    requires
        ty < 10,
    ensures
        dup_pos > 255 ==> r == Err::<Vec<u8>, Error>(Error::InvalidInput),
        dup_pos <= 255 ==> r is Ok && r->Ok_0@ == seq![
            if ty == 0 { 0xc0u8 } else { (ty + 0x40) as u8 },
            dup_pos as u8,
            dup_type,
        ],
{
    if dup_pos > 255 {
        return Err(Error::InvalidInput);
    }
    let mut v: Vec<u8> = Vec::new();
    v.push(if ty == 0 {
        0xc0
    } else {
        ty | 0x40
    });
    assert(ty != 0 ==> (ty | 0x40) == (ty + 0x40) as u8) by (bit_vector)
        requires
            ty < 10,
    ;
    v.push(dup_pos as u8);
    v.push(dup_type);
    assert(v@ =~= seq![if ty == 0 { 0xc0u8 } else { (ty + 0x40) as u8 }, dup_pos as u8, dup_type]);
    Ok(v)
}

/// Writes the codec's header: the uncompressed length and the name count as
/// little-endian `u32`, then 0 for rANS or 1 for arithmetic coding.
pub fn write_header(dst: &mut Vec<u8>, src_len: usize, names_count: usize, use_arith: bool) -> (r: Result<(), Error>)
    ensures
        src_len > u32::MAX || names_count > u32::MAX ==> r == Err::<(), Error>(Error::InvalidInput) && final(dst)@ == old(dst)@,
        src_len <= u32::MAX && names_count <= u32::MAX ==> r is Ok && final(dst)@ == old(dst)@
            + crate::num::le_bytes(src_len as nat, 4) + crate::num::le_bytes(names_count as nat, 4)
            + seq![if use_arith { 1u8 } else { 0u8 }],
{
    if src_len > u32::MAX as usize || names_count > u32::MAX as usize {
        return Err(Error::InvalidInput);
    }
    crate::num::write_u32_le(dst, src_len as u32).unwrap();
    crate::num::write_u32_le(dst, names_count as u32).unwrap();
    dst.push(if use_arith {
        1
    } else {
        0
    });
    assert(dst@ =~= old(dst)@ + crate::num::le_bytes(src_len as nat, 4) + crate::num::le_bytes(names_count as nat, 4)
        + seq![if use_arith { 1u8 } else { 0u8 }]);
    Ok(())
}

} // verus!
