//! Decoding of the server's line-oriented text protocol.
//!
//! A raw chunk of bytes is split on `\n` into lines, each line is split on
//! ASCII whitespace into tokens, and a token list beginning with the
//! `GAMESERVER` sentinel is decoded into a typed command. Malformed or
//! unrecognized lines are dropped silently. A command split across two
//! non-blocking reads is *not* reassembled: each chunk is decoded on its own,
//! so such a command decodes as two malformed lines and is dropped.

use vstd::prelude::*;

verus! {

/// ASCII whitespace: space and the control characters tab through
/// carriage return, the bytes on which a line is split into tokens.
pub open spec fn is_ws(b: u8) -> bool {
    b == 32u8 || (9u8 <= b && b <= 13u8)
}

/// ASCII decimal digit.
pub open spec fn is_digit(b: u8) -> bool {
    48u8 <= b && b <= 57u8
}

pub open spec fn digit_val(b: u8) -> nat {
    (b - 48u8) as nat
}

pub open spec fn all_digits(s: Seq<u8>) -> bool {
    forall|i: int| 0 <= i < s.len() ==> is_digit(#[trigger] s[i])
}

/// The value of a sequence of decimal digit bytes, most significant first.
pub open spec fn uint_val(s: Seq<u8>) -> nat
    decreases s.len(),
{
    if s.len() == 0 {
        0
    } else {
        uint_val(s.drop_last()) * 10 + digit_val(s.last())
    }
}

/// The digits of an unsigned numeral: one optional leading `+` is allowed.
pub open spec fn unsigned_digits(s: Seq<u8>) -> Seq<u8> {
    if s.len() > 0 && s[0] == 43u8 {
        s.drop_first()
    } else {
        s
    }
}

/// Whether `s` is a well-formed unsigned numeral (after the optional sign):
/// at least one byte, all of them digits.
pub open spec fn valid_unsigned(s: Seq<u8>) -> bool {
    unsigned_digits(s).len() > 0 && all_digits(unsigned_digits(s))
}

/// What parsing a token as a `u32` yields: the numeral's value when the
/// token is well formed and in range, nothing otherwise.
pub open spec fn spec_parse_u32(s: Seq<u8>) -> Option<u32> {
    if valid_unsigned(s) && uint_val(unsigned_digits(s)) <= u32::MAX {
        Some(uint_val(unsigned_digits(s)) as u32)
    } else {
        None
    }
}

/// What parsing a token as a `u64` yields.
pub open spec fn spec_parse_u64(s: Seq<u8>) -> Option<u64> {
    if valid_unsigned(s) && uint_val(unsigned_digits(s)) <= u64::MAX {
        Some(uint_val(unsigned_digits(s)) as u64)
    } else {
        None
    }
}

/// What parsing a token as an `i32` yields: one optional `+` or `-` sign,
/// then at least one digit; the value must lie in the `i32` range.
pub open spec fn spec_parse_i32(s: Seq<u8>) -> Option<i32> {
    if s.len() > 0 && s[0] == 45u8 {
        let d = s.drop_first();
        if d.len() > 0 && all_digits(d) && uint_val(d) <= 0x8000_0000 {
            Some((0 - uint_val(d)) as i32)
        } else {
            None
        }
    } else {
        if valid_unsigned(s) && uint_val(unsigned_digits(s)) <= i32::MAX {
            Some(uint_val(unsigned_digits(s)) as i32)
        } else {
            None
        }
    }
}

/// Appending digits to a numeral never decreases its value.
proof fn lemma_uint_val_prefix(s: Seq<u8>, k: int)
    requires
        all_digits(s),
        0 <= k <= s.len(),
    ensures
        uint_val(s) >= uint_val(s.take(k)),
    decreases s.len(),
{
    if k < s.len() {
        assert(s.drop_last().take(k) =~= s.take(k));
        assert(all_digits(s.drop_last()));
        lemma_uint_val_prefix(s.drop_last(), k);
    } else {
        assert(s.take(k) =~= s);
    }
}

/// Parses the digits of `t` starting at `from` as a 64-bit unsigned value,
/// failing on a non-digit byte or a value above `limit`.
fn parse_digits_u64(t: &Vec<u8>, from: usize, limit: u64) -> (r: Option<u64>)
    requires
        from <= t@.len(),
        limit >= 9,
    ensures
        match r {
            Some(v) => {
                let d = t@.skip(from as int);
                d.len() > 0 && all_digits(d) && uint_val(d) == v && v <= limit
            },
            None => {
                let d = t@.skip(from as int);
                d.len() == 0 || !all_digits(d) || uint_val(d) > limit
            },
        },
{
    let ghost d = t@.skip(from as int);
    if from == t.len() {
        return None;
    }
    let mut acc: u64 = 0;
    let mut i: usize = from;
    while i < t.len()
        invariant
            from <= i <= t@.len(),
            from < t@.len(),
            d == t@.skip(from as int),
            all_digits(d.take(i - from)),
            acc == uint_val(d.take(i - from)),
            acc <= limit,
            limit >= 9,
        decreases t@.len() - i,
    {
        let b = t[i];
        assert(d[i - from] == b);
        if !(48 <= b && b <= 57) {
            assert(!all_digits(d));
            return None;
        }
        let dv: u64 = (b - 48) as u64;
        proof {
            assert(d.take(i - from + 1).drop_last() =~= d.take(i - from));
            assert(d.take(i - from + 1).last() == b);
        }
        if acc > (limit - dv) / 10 || acc * 10 > limit - dv {
            proof {
                assert(uint_val(d.take(i - from + 1)) > limit);
                if all_digits(d) {
                    lemma_uint_val_prefix(d, i - from + 1);
                }
            }
            return None;
        }
        acc = acc * 10 + dv;
        i = i + 1;
    }
    proof {
        assert(d.take(i - from) =~= d);
    }
    Some(acc)
}

/// Parses a whole token as a `u32`, as the protocol's id fields are read.
pub fn parse_u32(t: &Vec<u8>) -> (r: Option<u32>)
    ensures
        r == spec_parse_u32(t@),
{
    let start: usize = if t.len() > 0 && t[0] == 43 {
        1
    } else {
        0
    };
    proof {
        if start == 1 {
            assert(unsigned_digits(t@) =~= t@.skip(1));
        } else {
            assert(unsigned_digits(t@) =~= t@.skip(0));
        }
    }
    match parse_digits_u64(t, start, u32::MAX as u64) {
        Some(v) => Some(v as u32),
        None => None,
    }
}

/// Parses a whole token as a `u64`, as the protocol's count field is read.
pub fn parse_u64(t: &Vec<u8>) -> (r: Option<u64>)
    ensures
        r == spec_parse_u64(t@),
{
    let start: usize = if t.len() > 0 && t[0] == 43 {
        1
    } else {
        0
    };
    proof {
        if start == 1 {
            assert(unsigned_digits(t@) =~= t@.skip(1));
        } else {
            assert(unsigned_digits(t@) =~= t@.skip(0));
        }
    }
    parse_digits_u64(t, start, u64::MAX)
}

/// Parses a whole token as an `i32`, as the protocol's coordinate fields
/// are read.
pub fn parse_i32(t: &Vec<u8>) -> (r: Option<i32>)
    ensures
        r == spec_parse_i32(t@),
{
    if t.len() > 0 && t[0] == 45 {
        proof {
            assert(t@.drop_first() =~= t@.skip(1));
        }
        match parse_digits_u64(t, 1, 0x8000_0000u64) {
            Some(v) => Some((0i64 - v as i64) as i32),
            None => None,
        }
    } else {
        let start: usize = if t.len() > 0 && t[0] == 43 {
            1
        } else {
            0
        };
        proof {
            if start == 1 {
                assert(unsigned_digits(t@) =~= t@.skip(1));
            } else {
                assert(unsigned_digits(t@) =~= t@.skip(0));
            }
        }
        match parse_digits_u64(t, start, i32::MAX as u64) {
            Some(v) => Some(v as i32),
            None => None,
        }
    }
}

/// The tokens of a line: maximal runs of non-whitespace bytes, in order.
pub open spec fn tokenize(s: Seq<u8>) -> Seq<Seq<u8>>
    decreases s.len(),
{
    if s.len() == 0 {
        seq![]
    } else if is_ws(s[0]) {
        tokenize(s.drop_first())
    } else if s.len() == 1 || is_ws(s[1]) {
        seq![seq![s[0]]] + tokenize(s.drop_first())
    } else {
        let rest = tokenize(s.drop_first());
        seq![seq![s[0]] + rest[0]] + rest.drop_first()
    }
}

/// A leading whitespace byte contributes no token.
proof fn lemma_tokenize_ws(s: Seq<u8>, i: int)
    requires
        0 <= i < s.len(),
        is_ws(s[i]),
    ensures
        tokenize(s.skip(i)) == tokenize(s.skip(i + 1)),
{
    assert(s.skip(i).drop_first() =~= s.skip(i + 1));
}

/// A maximal non-whitespace run `[i, j)` is the next token.
proof fn lemma_tokenize_token(s: Seq<u8>, i: int, j: int)
    requires
        0 <= i < j <= s.len(),
        forall|k: int| i <= k < j ==> !is_ws(#[trigger] s[k]),
        j == s.len() || is_ws(s[j]),
    ensures
        tokenize(s.skip(i)) == seq![s.subrange(i, j)] + tokenize(s.skip(j)),
    decreases j - i,
{
    let t = s.skip(i);
    assert(t[0] == s[i]);
    assert(t.drop_first() =~= s.skip(i + 1));
    if i + 1 == j {
        if j == s.len() {
            assert(t.len() == 1);
        } else {
            assert(t[1] == s[j]);
        }
        assert(seq![s[i]] =~= s.subrange(i, j));
    } else {
        assert(t[1] == s[i + 1]);
        assert(!is_ws(t[1]));
        lemma_tokenize_token(s, i + 1, j);
        let rest = tokenize(s.skip(i + 1));
        assert(rest[0] == s.subrange(i + 1, j));
        assert(seq![s[i]] + s.subrange(i + 1, j) =~= s.subrange(i, j));
        assert(rest.drop_first() =~= tokenize(s.skip(j)));
        assert(tokenize(s.skip(i)) =~= seq![s.subrange(i, j)] + tokenize(s.skip(j)));
    }
}

/// Recognizes the whitespace bytes on which tokens are split.
pub fn is_ws_byte(b: u8) -> (r: bool)
    ensures
        r == is_ws(b),
{
    b == 32 || (9 <= b && b <= 13)
}

/// Splits `bytes[lo..hi]` into its whitespace-separated tokens.
pub fn tokenize_range(bytes: &Vec<u8>, lo: usize, hi: usize) -> (toks: Vec<Vec<u8>>)
    requires
        lo <= hi <= bytes@.len(),
    ensures
        toks.deep_view() == tokenize(bytes@.subrange(lo as int, hi as int)),
{
    let ghost s = bytes@.subrange(lo as int, hi as int);
    let mut toks: Vec<Vec<u8>> = Vec::new();
    let mut k: usize = lo;
    proof {
        assert(toks.deep_view() =~= Seq::<Seq<u8>>::empty());
        assert(s.skip(0) =~= s);
    }
    while k < hi
        invariant
            lo <= k <= hi <= bytes@.len(),
            s == bytes@.subrange(lo as int, hi as int),
            tokenize(s) == toks.deep_view() + tokenize(s.skip(k - lo)),
        decreases hi - k,
    {
        let b = bytes[k];
        assert(s[k - lo] == b);
        if is_ws_byte(b) {
            proof {
                lemma_tokenize_ws(s, k - lo);
            }
            k = k + 1;
        } else {
            let start = k;
            let mut tok: Vec<u8> = Vec::new();
            proof {
                assert(tok@ =~= s.subrange(start - lo, k - lo));
            }
            while k < hi && !is_ws_byte(bytes[k])
                invariant
                    lo <= start <= k <= hi <= bytes@.len(),
                    s == bytes@.subrange(lo as int, hi as int),
                    start < hi,
                    tok@ == s.subrange(start - lo, k - lo),
                    forall|m: int| start - lo <= m < k - lo ==> !is_ws(#[trigger] s[m]),
                decreases hi - k,
            {
                let c = bytes[k];
                assert(s[k - lo] == c);
                tok.push(c);
                proof {
                    assert(tok@ =~= s.subrange(start - lo, k + 1 - lo));
                }
                k = k + 1;
            }
            proof {
                assert(k == hi || is_ws(s[k - lo]));
                lemma_tokenize_token(s, start - lo, k - lo);
                assert(tok.deep_view() =~= tok@);
            }
            let ghost old_dv = toks.deep_view();
            toks.push(tok);
            proof {
                assert(toks.deep_view() =~= old_dv.push(tok@));
                assert(old_dv.push(tok@) + tokenize(s.skip(k - lo)) =~= old_dv + (seq![
                    s.subrange(start - lo, k - lo),
                ] + tokenize(s.skip(k - lo))));
            }
        }
    }
    proof {
        assert(s.skip(k - lo) =~= Seq::<u8>::empty());
        assert(tokenize(s) =~= toks.deep_view());
    }
    toks
}

/// The sentinel token `GAMESERVER` that opens every well-formed command.
pub open spec fn sentinel() -> Seq<u8> {
    seq![71u8, 65u8, 77u8, 69u8, 83u8, 69u8, 82u8, 86u8, 69u8, 82u8]
}

/// The verb token `init`.
pub open spec fn init_verb() -> Seq<u8> {
    seq![105u8, 110u8, 105u8, 116u8]
}

/// The verb token `update`.
pub open spec fn update_verb() -> Seq<u8> {
    seq![117u8, 112u8, 100u8, 97u8, 116u8, 101u8]
}

/// A decoded server command, as contracts speak of it.
pub enum CmdView {
    /// `init <player_id>`: assigns the local player identity.
    Init(u32),
    /// `update <count> (<id> <x> <z>)*`: a full authoritative snapshot.
    Update(Seq<(u32, i32, i32)>),
}

/// A decoded server command.
pub enum Command {
    /// `init <player_id>`: assigns the local player identity.
    Init(u32),
    /// `update <count> (<id> <x> <z>)*`: a full authoritative snapshot.
    Update(Vec<(u32, i32, i32)>),
}

impl View for Command {
    type V = CmdView;

    open spec fn view(&self) -> CmdView {
        match self {
            Command::Init(id) => CmdView::Init(*id),
            Command::Update(ts) => CmdView::Update(ts@),
        }
    }
}

/// The first `n` decoded `(id, x, z)` triples of an `update` line, or
/// nothing as soon as one numeric field fails to parse.
pub open spec fn spec_triples(toks: Seq<Seq<u8>>, n: nat) -> Option<Seq<(u32, i32, i32)>>
    decreases n,
{
    if n == 0 {
        Some(Seq::empty())
    } else {
        let m = (n - 1) as nat;
        match spec_triples(toks, m) {
            None => None,
            Some(ts) => match spec_parse_u32(toks[3 + 3 * m as int]) {
                None => None,
                Some(id) => match spec_parse_i32(toks[4 + 3 * m as int]) {
                    None => None,
                    Some(x) => match spec_parse_i32(toks[5 + 3 * m as int]) {
                        None => None,
                        Some(z) => Some(ts.push((id, x, z))),
                    },
                },
            },
        }
    }
}

/// Once a triple fails to parse, every longer prefix fails too: the whole
/// command is dropped, not just the offending triple.
proof fn lemma_triples_none(toks: Seq<Seq<u8>>, k: nat, n: nat)
    requires
        spec_triples(toks, k) == None::<Seq<(u32, i32, i32)>>,
        k <= n,
    ensures
        spec_triples(toks, n) == None::<Seq<(u32, i32, i32)>>,
    decreases n,
{
    if n > k {
        lemma_triples_none(toks, k, (n - 1) as nat);
    }
}

/// What a token list decodes to. Lines that do not open with the sentinel,
/// unknown verbs, missing fields, unparsable numbers, and `update` lines
/// whose token count does not match the announced triple count all decode to
/// nothing and are dropped.
pub open spec fn spec_decode_tokens(toks: Seq<Seq<u8>>) -> Option<CmdView> {
    if toks.len() < 3 || toks[0] != sentinel() {
        None
    } else if toks[1] == init_verb() {
        match spec_parse_u32(toks[2]) {
            Some(id) => Some(CmdView::Init(id)),
            None => None,
        }
    } else if toks[1] == update_verb() {
        match spec_parse_u64(toks[2]) {
            Some(n) => if toks.len() == 3 + 3 * (n as int) {
                match spec_triples(toks, n as nat) {
                    Some(ts) => Some(CmdView::Update(ts)),
                    None => None,
                }
            } else {
                None
            },
            None => None,
        }
    } else {
        None
    }
}

/// Byte-for-byte equality of two tokens.
fn bytes_eq(a: &Vec<u8>, b: &Vec<u8>) -> (r: bool)
    ensures
        r == (a@ == b@),
{
    if a.len() != b.len() {
        return false;
    }
    let mut i: usize = 0;
    while i < a.len()
        invariant
            i <= a@.len(),
            a@.len() == b@.len(),
            forall|k: int| 0 <= k < i ==> a@[k] == b@[k],
        decreases a@.len() - i,
    {
        if a[i] != b[i] {
            return false;
        }
        i = i + 1;
    }
    proof {
        assert(a@ =~= b@);
    }
    true
}

fn sentinel_bytes() -> (v: Vec<u8>)
    ensures
        v@ == sentinel(),
{
    let mut v: Vec<u8> = Vec::new();
    v.push(71);
    v.push(65);
    v.push(77);
    v.push(69);
    v.push(83);
    v.push(69);
    v.push(82);
    v.push(86);
    v.push(69);
    v.push(82);
    proof {
        assert(v@ =~= sentinel());
    }
    v
}

fn init_verb_bytes() -> (v: Vec<u8>)
    ensures
        v@ == init_verb(),
{
    let mut v: Vec<u8> = Vec::new();
    v.push(105);
    v.push(110);
    v.push(105);
    v.push(116);
    proof {
        assert(v@ =~= init_verb());
    }
    v
}

fn update_verb_bytes() -> (v: Vec<u8>)
    ensures
        v@ == update_verb(),
{
    let mut v: Vec<u8> = Vec::new();
    v.push(117);
    v.push(112);
    v.push(100);
    v.push(97);
    v.push(116);
    v.push(101);
    proof {
        assert(v@ =~= update_verb());
    }
    v
}

/// Each token of the nested view is the view of the stored token.
proof fn lemma_deep_view_index(toks: &Vec<Vec<u8>>)
    ensures
        toks.deep_view().len() == toks@.len(),
        forall|i: int|
            0 <= i < toks@.len() ==> #[trigger] toks.deep_view()[i] == toks@[i]@,
{
    assert forall|i: int| 0 <= i < toks@.len() implies #[trigger] toks.deep_view()[i]
        == toks@[i]@ by {
        assert(toks@[i].deep_view() =~= toks@[i]@);
    }
}

/// Decodes one line's token list into a command, dropping it when malformed.
#[verifier::rlimit(50)]
pub fn decode_tokens(toks: &Vec<Vec<u8>>) -> (r: Option<Command>)
    ensures
        match r {
            Some(c) => spec_decode_tokens(toks.deep_view()) == Some(c@),
            None => spec_decode_tokens(toks.deep_view()) is None,
        },
{
    proof {
        lemma_deep_view_index(toks);
    }
    let ghost dv = toks.deep_view();
    if toks.len() < 3 {
        return None;
    }
    let sent = sentinel_bytes();
    if !bytes_eq(&toks[0], &sent) {
        return None;
    }
    let iv = init_verb_bytes();
    if bytes_eq(&toks[1], &iv) {
        return match parse_u32(&toks[2]) {
            Some(id) => Some(Command::Init(id)),
            None => None,
        };
    }
    let uv = update_verb_bytes();
    if !bytes_eq(&toks[1], &uv) {
        return None;
    }
    let n = match parse_u64(&toks[2]) {
        Some(n) => n,
        None => {
            return None;
        },
    };
    let rest = toks.len() - 3;
    if rest % 3 != 0 || n != (rest / 3) as u64 {
        proof {
            assert(dv.len() != 3 + 3 * (n as int));
        }
        return None;
    }
    let count = rest / 3;
    let total = toks.len();
    assert(dv.len() == 3 + 3 * (count as int));
    let ghost full = spec_triples(dv, count as nat);
    assert(match full {
        None => spec_decode_tokens(dv) is None,
        Some(tss) => spec_decode_tokens(dv) == Some(CmdView::Update(tss)),
    });
    let mut ts: Vec<(u32, i32, i32)> = Vec::new();
    let mut k: usize = 0;
    while k < count
        invariant
            k <= count,
            total == toks@.len(),
            toks@.len() == 3 + 3 * (count as int),
            dv == toks.deep_view(),
            dv.len() == toks@.len(),
            forall|i: int| 0 <= i < toks@.len() ==> #[trigger] dv[i] == toks@[i]@,
            spec_triples(dv, k as nat) == Some(ts@),
            full == spec_triples(dv, count as nat),
            match full {
                None => spec_decode_tokens(dv) is None,
                Some(tss) => spec_decode_tokens(dv) == Some(CmdView::Update(tss)),
            },
        decreases count - k,
    {
        assert(3 + 3 * (k as int) + 2 < toks@.len());
        let idx = 3 + 3 * k;
        let id = match parse_u32(&toks[idx]) {
            Some(id) => id,
            None => {
                proof {
                    assert(spec_triples(dv, (k + 1) as nat) is None);
                    lemma_triples_none(dv, (k + 1) as nat, count as nat);
                }
                return None;
            },
        };
        let x = match parse_i32(&toks[idx + 1]) {
            Some(x) => x,
            None => {
                proof {
                    assert(spec_triples(dv, (k + 1) as nat) is None);
                    lemma_triples_none(dv, (k + 1) as nat, count as nat);
                }
                return None;
            },
        };
        let z = match parse_i32(&toks[idx + 2]) {
            Some(z) => z,
            None => {
                proof {
                    assert(spec_triples(dv, (k + 1) as nat) is None);
                    lemma_triples_none(dv, (k + 1) as nat, count as nat);
                }
                return None;
            },
        };
        ts.push((id, x, z));
        proof {
            assert(spec_triples(dv, (k + 1) as nat) == Some(ts@));
        }
        k = k + 1;
    }
    Some(Command::Update(ts))
}

/// The lines of a chunk: the segments between `\n` bytes, in order. A chunk
/// without a newline is one line; a trailing partial command is decoded
/// as-is, never buffered for the next read.
pub open spec fn split_lines(s: Seq<u8>) -> Seq<Seq<u8>>
    decreases s.len(),
{
    if s.len() == 0 {
        seq![Seq::<u8>::empty()]
    } else if s[0] == 10u8 {
        seq![Seq::<u8>::empty()] + split_lines(s.drop_first())
    } else {
        let rest = split_lines(s.drop_first());
        seq![seq![s[0]] + rest[0]] + rest.drop_first()
    }
}

proof fn lemma_split_lines_nonempty(s: Seq<u8>)
    ensures
        split_lines(s).len() >= 1,
    decreases s.len(),
{
    if s.len() > 0 {
        lemma_split_lines_nonempty(s.drop_first())
    }
}

/// A newline-free run `[i, j)` closed by a newline or the chunk's end is the
/// next line.
proof fn lemma_split_lines_step(s: Seq<u8>, i: int, j: int)
    requires
        0 <= i <= j <= s.len(),
        forall|k: int| i <= k < j ==> #[trigger] s[k] != 10u8,
        j == s.len() || s[j] == 10u8,
    ensures
        j < s.len() ==> split_lines(s.skip(i)) == seq![s.subrange(i, j)] + split_lines(
            s.skip(j + 1),
        ),
        j == s.len() ==> split_lines(s.skip(i)) == seq![s.subrange(i, j)],
    decreases j - i,
{
    let t = s.skip(i);
    if i == j {
        if j == s.len() {
            assert(t =~= Seq::<u8>::empty());
            assert(s.subrange(i, j) =~= Seq::<u8>::empty());
        } else {
            assert(t[0] == s[j]);
            assert(t.drop_first() =~= s.skip(j + 1));
            assert(s.subrange(i, j) =~= Seq::<u8>::empty());
        }
    } else {
        assert(t[0] == s[i]);
        assert(t[0] != 10u8);
        assert(t.drop_first() =~= s.skip(i + 1));
        lemma_split_lines_step(s, i + 1, j);
        let rest = split_lines(s.skip(i + 1));
        lemma_split_lines_nonempty(s.skip(i + 1));
        assert(rest[0] == s.subrange(i + 1, j));
        assert(seq![s[i]] + s.subrange(i + 1, j) =~= s.subrange(i, j));
        if j < s.len() {
            assert(rest.drop_first() =~= split_lines(s.skip(j + 1)));
            assert(split_lines(s.skip(i)) =~= seq![s.subrange(i, j)] + split_lines(
                s.skip(j + 1),
            ));
        } else {
            assert(rest.drop_first() =~= Seq::<Seq<u8>>::empty());
            assert(split_lines(s.skip(i)) =~= seq![s.subrange(i, j)]);
        }
    }
}

/// What one line decodes to: its token list read as a command.
pub open spec fn spec_decode_line(line: Seq<u8>) -> Option<CmdView> {
    spec_decode_tokens(tokenize(line))
}

/// The commands of a list of lines, malformed lines dropped.
pub open spec fn decode_lines(lines: Seq<Seq<u8>>) -> Seq<CmdView>
    decreases lines.len(),
{
    if lines.len() == 0 {
        seq![]
    } else {
        let rest = decode_lines(lines.drop_first());
        match spec_decode_line(lines[0]) {
            Some(c) => seq![c] + rest,
            None => rest,
        }
    }
}

/// The commands a raw chunk of bytes decodes to, in arrival order.
pub open spec fn spec_decode_chunk(chunk: Seq<u8>) -> Seq<CmdView> {
    decode_lines(split_lines(chunk))
}

proof fn lemma_decode_empty()
    ensures
        decode_lines(split_lines(Seq::<u8>::empty())) == Seq::<CmdView>::empty(),
{
    let lines = split_lines(Seq::<u8>::empty());
    assert(lines =~= seq![Seq::<u8>::empty()]);
    assert(tokenize(Seq::<u8>::empty()) =~= Seq::<Seq<u8>>::empty());
    assert(spec_decode_line(Seq::<u8>::empty()) is None);
    assert(lines.drop_first() =~= Seq::<Seq<u8>>::empty());
    assert(decode_lines(lines.drop_first()) =~= Seq::<CmdView>::empty());
}

/// Splits a raw chunk into lines and decodes each, dropping malformed ones.
pub fn decode_chunk(bytes: &Vec<u8>) -> (cmds: Vec<Command>)
    ensures
        cmds@.map_values(|c: Command| c@) == spec_decode_chunk(bytes@),
{
    let n = bytes.len();
    let mut cmds: Vec<Command> = Vec::new();
    let mut i: usize = 0;
    proof {
        assert(bytes@.skip(0) =~= bytes@);
        assert(cmds@.map_values(|c: Command| c@) =~= Seq::<CmdView>::empty());
    }
    while i < n
        invariant
            i <= n,
            n == bytes@.len(),
            spec_decode_chunk(bytes@) == cmds@.map_values(|c: Command| c@) + decode_lines(
                split_lines(bytes@.skip(i as int)),
            ),
        decreases n - i,
    {
        let mut j: usize = i;
        while j < n && bytes[j] != 10
            invariant
                i <= j <= n,
                n == bytes@.len(),
                forall|k: int| i <= k < j ==> #[trigger] bytes@[k] != 10u8,
            decreases n - j,
        {
            j = j + 1;
        }
        let toks = tokenize_range(bytes, i, j);
        let ghost line = bytes@.subrange(i as int, j as int);
        proof {
            lemma_split_lines_step(bytes@, i as int, j as int);
        }
        let ghost before = cmds@.map_values(|c: Command| c@);
        match decode_tokens(&toks) {
            Some(c) => {
                let ghost cv = c@;
                cmds.push(c);
                proof {
                    assert(cmds@.map_values(|c: Command| c@) =~= before.push(cv));
                }
            },
            None => {},
        }
        proof {
            if j < n {
                assert(decode_lines(split_lines(bytes@.skip(i as int))) == decode_lines(
                    seq![line] + split_lines(bytes@.skip(j + 1)),
                ));
                assert((seq![line] + split_lines(bytes@.skip(j + 1))).drop_first()
                    =~= split_lines(bytes@.skip(j + 1)));
                assert((seq![line] + split_lines(bytes@.skip(j + 1)))[0] == line);
            } else {
                assert(decode_lines(split_lines(bytes@.skip(i as int))) == decode_lines(
                    seq![line],
                ));
                assert(seq![line].drop_first() =~= Seq::<Seq<u8>>::empty());
                assert(decode_lines(seq![line].drop_first()) =~= Seq::<CmdView>::empty());
            }
            assert(match spec_decode_line(line) {
                Some(cv) => before.push(cv) =~= before + seq![cv],
                None => true,
            });
        }
        if j < n {
            i = j + 1;
        } else {
            i = n;
            proof {
                assert(bytes@.skip(n as int) =~= Seq::<u8>::empty());
                lemma_decode_empty();
            }
        }
    }
    proof {
        assert(bytes@.skip(i as int) =~= Seq::<u8>::empty());
        lemma_decode_empty();
        assert(cmds@.map_values(|c: Command| c@) =~= spec_decode_chunk(bytes@));
    }
    cmds
}

} // verus!
