//! The wire format of the control protocol: each request and reply is one
//! JSON document, written with no whitespace between tokens, objects with
//! their keys in declaration order, strings with `"`, `\` and the control
//! characters escaped. The protocol decoders read exactly that canonical
//! shape — the shape this crate's encoder and serde's compact output both
//! produce — and answer everything else with an error, never a crash; a
//! client that reorders keys or inserts whitespace is not understood. The
//! configuration file alone, being written by hand, is read with
//! insignificant whitespace allowed between its tokens.
//!
//! Encoding and decoding are stated over spec-level models of the protocol
//! types of [`crate::comms`]; decoding inverts encoding, which is proved
//! below for every command and response.

use crate::comms::{ClobberConfig, Command, JobDesc, QueuedJobDesc, Response, User};
use vstd::prelude::*;
use vstd::string::StrSliceExecFns;

verus! {

// ---------------------------------------------------------------------------
// decimal numbers
// ---------------------------------------------------------------------------
/// Ten to the `e`-th.
pub open spec fn pow10(e: nat) -> int
    decreases e,
{
    if e == 0 {
        1
    } else {
        10 * pow10((e - 1) as nat)
    }
}

/// The character of the decimal digit `d`.
pub open spec fn digit_char(d: int) -> char {
    ((48 + d) as u8) as char
}

/// Is `c` a decimal digit?
pub open spec fn is_digit(c: char) -> bool {
    48 <= c as int <= 57
}

/// The value of the digit character `c`.
pub open spec fn digit_val(c: char) -> int {
    c as int - 48
}

/// The decimal spelling of `n`, most significant digit first, no sign, no
/// leading zero.
pub open spec fn enc_u64(n: u64) -> Seq<char>
    decreases n,
{
    if n < 10 {
        seq![digit_char(n as int)]
    } else {
        enc_u64(n / 10).push(digit_char((n % 10) as int))
    }
}

/// The first position at or after `i` that does not hold a digit.
pub open spec fn digits_end(s: Seq<char>, i: int) -> int
    decreases s.len() - i,
    when 0 <= i <= s.len()
{
    if i >= s.len() {
        i
    } else if is_digit(s[i]) {
        digits_end(s, i + 1)
    } else {
        i
    }
}

/// The value of the digit run `s[i..j)`.
pub open spec fn digits_val(s: Seq<char>, i: int, j: int) -> int
    decreases j - i,
    when i <= j
{
    if j <= i {
        0
    } else {
        digits_val(s, i, j - 1) * 10 + digit_val(s[j - 1])
    }
}

/// Read an unsigned decimal number at `i`: the value of the digit run
/// starting there and the position after it. Empty runs, runs of more than
/// 20 digits and values beyond `u64::MAX` read as nothing.
pub open spec fn dec_u64_at(s: Seq<char>, i: int) -> Option<(u64, int)> {
    if !(0 <= i <= s.len()) {
        None
    } else {
        let j = digits_end(s, i);
        if j == i || j - i > 20 || digits_val(s, i, j) > u64::MAX {
            None
        } else {
            Some((digits_val(s, i, j) as u64, j))
        }
    }
}

/// Basic facts of a digit run: non-negative, bounded by ten to its length.
proof fn lemma_digits_val_bounds(s: Seq<char>, i: int, j: int)
    requires
        0 <= i <= j <= s.len(),
        forall|k: int| i <= k < j ==> is_digit(#[trigger] s[k]),
    ensures
        0 <= digits_val(s, i, j) < pow10((j - i) as nat),
    decreases j - i,
{
    if j > i {
        lemma_digits_val_bounds(s, i, j - 1);
    }
}

/// A digit run bounded on both sides is read back as its value.
proof fn lemma_digits_end_run(s: Seq<char>, i: int, j: int)
    requires
        0 <= i <= j <= s.len(),
        forall|k: int| i <= k < j ==> is_digit(#[trigger] s[k]),
        j == s.len() || !is_digit(s[j]),
    ensures
        digits_end(s, i) == j,
    decreases j - i,
{
    if i < j {
        lemma_digits_end_run(s, i + 1, j);
    }
}

/// Every character of `enc_u64(n)` is a digit, there is at least one, at
/// most 20, and the run reads back as `n`.
proof fn lemma_enc_u64_digits(n: u64)
    ensures
        1 <= enc_u64(n).len() <= 20,
        forall|k: int| 0 <= k < enc_u64(n).len() ==> is_digit(#[trigger] enc_u64(n)[k]),
        (n as int) < pow10(enc_u64(n).len() as nat),
        enc_u64(n).len() >= 2 ==> (n as int) >= pow10((enc_u64(n).len() - 1) as nat),
    decreases n,
{
    if n < 10 {
        assert(enc_u64(n) == seq![digit_char(n as int)]);
        assert(pow10(1) == 10 * pow10(0));
        assert(pow10(0) == 1);
    } else {
        lemma_enc_u64_digits(n / 10);
        let e = enc_u64(n);
        let p = enc_u64(n / 10);
        assert(e == p.push(digit_char((n % 10) as int)));
        assert(forall|k: int| 0 <= k < p.len() ==> is_digit(#[trigger] p[k]));
        assert(is_digit(digit_char((n % 10) as int)));
        assert forall|k: int| 0 <= k < e.len() implies is_digit(#[trigger] e[k]) by {
            if k < p.len() {
                assert(e[k] == p[k]);
            } else {
                assert(e[k] == digit_char((n % 10) as int));
            }
        }
        assert(((n / 10) as int) < pow10(p.len() as nat));
        assert(n as int == (n / 10) as int * 10 + (n % 10) as int);
        assert(pow10(e.len() as nat) == 10 * pow10(p.len() as nat));
        assert((n as int) < pow10(e.len() as nat));
        assert(n as int >= pow10((e.len() - 1) as nat)) by {
            let pl = p.len() as nat;
            assert(pow10(pl) == 10 * pow10((pl - 1) as nat));
            if p.len() >= 2 {
                assert((n / 10) as int >= pow10((pl - 1) as nat));
            } else {
                assert((n / 10) as int >= 1);
                assert(pow10(0) == 1);
            }
            assert(n as int >= 10 * ((n / 10) as int));
            assert(10 * ((n / 10) as int) >= 10 * pow10((pl - 1) as nat));
            assert((e.len() - 1) as nat == pl);
        }
        if e.len() > 20 {
            assert(p.len() == 20);
            assert(n as int >= pow10(20)) by {
                assert((n / 10) as int >= pow10(19));
            }
            assert(pow10(20) > u64::MAX as int) by {
                reveal_with_fuel(pow10, 21);
            }
            assert(false);
        }
    }
}

/// Reading the digits of `enc_u64(n)` in place yields `n` again.
proof fn lemma_digits_val_enc(s: Seq<char>, i: int, n: u64)
    requires
        0 <= i,
        i + enc_u64(n).len() <= s.len(),
        s.subrange(i, i + enc_u64(n).len() as int) == enc_u64(n),
    ensures
        digits_val(s, i, i + enc_u64(n).len() as int) == n as int,
    decreases n,
{
    let e = enc_u64(n);
    let j = i + e.len() as int;
    if n < 10 {
        assert(s[i] == e[0]);
        assert(digits_val(s, i, j) == digits_val(s, i, j - 1) * 10 + digit_val(s[j - 1]));
        assert(digit_val(digit_char(n as int)) == n as int);
    } else {
        let p = enc_u64(n / 10);
        assert(e == p.push(digit_char((n % 10) as int)));
        assert(s.subrange(i, i + p.len() as int) =~= p) by {
            assert forall|k: int| 0 <= k < p.len() implies s.subrange(i, i + p.len() as int)[k]
                == p[k] by {
                assert(s[i + k] == e[k]);
            }
        }
        lemma_digits_val_enc(s, i, n / 10);
        assert(s[j - 1] == e[e.len() - 1]);
        assert(digit_val(s[j - 1]) == (n % 10) as int);
        assert(digits_val(s, i, j) == digits_val(s, i, j - 1) * 10 + digit_val(s[j - 1]));
    }
}

// ---------------------------------------------------------------------------
// spec models of the protocol types
// ---------------------------------------------------------------------------
/// What a `User` is mathematically.
pub ghost struct UserModel {
    pub name: Seq<char>,
    pub uid: int,
}

/// What a `JobDesc` is mathematically.
pub ghost struct JobDescModel {
    pub id: int,
    pub owner: UserModel,
    pub requested_gpus: Seq<int>,
}

/// What a `QueuedJobDesc` is mathematically.
pub ghost struct EntryModel {
    pub queue_position: int,
    pub job: JobDescModel,
}

/// What a `Command` is mathematically.
pub ghost enum CommandModel {
    Status,
    Kill,
    SetWatch { device_number: int, watching: bool },
    QueueJob { user: UserModel, image_id: Seq<char>, gpus: Seq<int> },
    ActiveJobs,
    MyJobs { uid: int },
}

/// What a `Response` is mathematically.
pub ghost enum ResponseModel {
    Success,
    Error(Seq<char>),
    GPUStatus { locks: Seq<Option<UserModel>> },
    ActiveJobs(Seq<JobDescModel>),
    MyJobs(Seq<EntryModel>),
}

/// What a `ClobberConfig` is mathematically.
pub ghost struct ConfigModel {
    pub pings_api_key: Seq<char>,
}

/// The model of a device list.
pub open spec fn gpus_view(v: Seq<u32>) -> Seq<int> {
    v.map_values(|x: u32| x as int)
}

/// The model of one device lock.
pub open spec fn lock_view(o: Option<User>) -> Option<UserModel> {
    match o {
        Some(u) => Some(u@),
        None => None,
    }
}

/// The model of a lock list.
pub open spec fn locks_view(v: Seq<Option<User>>) -> Seq<Option<UserModel>> {
    v.map_values(|o: Option<User>| lock_view(o))
}

/// The model of a description list.
pub open spec fn descs_view(v: Seq<JobDesc>) -> Seq<JobDescModel> {
    v.map_values(|d: JobDesc| d@)
}

/// The model of an entry list.
pub open spec fn entries_view(v: Seq<QueuedJobDesc>) -> Seq<EntryModel> {
    v.map_values(|e: QueuedJobDesc| e@)
}

impl View for User {
    type V = UserModel;

    open spec fn view(&self) -> UserModel {
        UserModel { name: self.name@, uid: self.uid as int }
    }
}

impl View for JobDesc {
    type V = JobDescModel;

    open spec fn view(&self) -> JobDescModel {
        JobDescModel {
            id: self.id as int,
            owner: self.owner@,
            requested_gpus: gpus_view(self.requested_gpus@),
        }
    }
}

impl View for QueuedJobDesc {
    type V = EntryModel;

    open spec fn view(&self) -> EntryModel {
        EntryModel { queue_position: self.queue_position as int, job: self.job@ }
    }
}

impl View for Command {
    type V = CommandModel;

    open spec fn view(&self) -> CommandModel {
        match self {
            Command::Status => CommandModel::Status,
            Command::Kill => CommandModel::Kill,
            Command::SetWatch { device_number, watching } => CommandModel::SetWatch {
                device_number: *device_number as int,
                watching: *watching,
            },
            Command::QueueJob { user, image_id, gpus } => CommandModel::QueueJob {
                user: user@,
                image_id: image_id@,
                gpus: gpus_view(gpus@),
            },
            Command::ActiveJobs => CommandModel::ActiveJobs,
            Command::MyJobs { uid } => CommandModel::MyJobs { uid: *uid as int },
        }
    }
}

impl View for Response {
    type V = ResponseModel;

    open spec fn view(&self) -> ResponseModel {
        match self {
            Response::Success => ResponseModel::Success,
            Response::Error(m) => ResponseModel::Error(m@),
            Response::GPUStatus { locks } => ResponseModel::GPUStatus { locks: locks_view(locks@) },
            Response::ActiveJobs(v) => ResponseModel::ActiveJobs(descs_view(v@)),
            Response::MyJobs(v) => ResponseModel::MyJobs(entries_view(v@)),
        }
    }
}

impl View for ClobberConfig {
    type V = ConfigModel;

    open spec fn view(&self) -> ConfigModel {
        ConfigModel { pings_api_key: self.pings_api_key@ }
    }
}

// ---------------------------------------------------------------------------
// strings
// ---------------------------------------------------------------------------
/// The lowercase hex digit of value `d`.
pub open spec fn hex_char(d: int) -> char {
    if d < 10 {
        ((48 + d) as u8) as char
    } else {
        ((87 + d) as u8) as char
    }
}

/// Is `c` a lowercase hex digit?
pub open spec fn is_hex_lower(c: char) -> bool {
    is_digit(c) || 97 <= c as int <= 102
}

/// The value of the hex digit `c`.
pub open spec fn hex_val(c: char) -> int {
    if c as int <= 57 {
        c as int - 48
    } else {
        c as int - 87
    }
}

/// A hex digit reads back as its value.
proof fn lemma_hex_roundtrip(d: int)
    requires
        0 <= d < 16,
    ensures
        is_hex_lower(hex_char(d)),
        hex_val(hex_char(d)) == d,
{
}

/// How one character is written inside a JSON string: `"` and `\` get a
/// backslash, the common control characters their short escapes, any other
/// control character its `\u00..` form, and everything else stands as
/// itself, so that every emitted document is valid JSON for any reader.
pub open spec fn esc_char(c: char) -> Seq<char> {
    if c == '"' || c == '\\' {
        seq!['\\', c]
    } else if c == '\n' {
        seq!['\\', 'n']
    } else if c == '\t' {
        seq!['\\', 't']
    } else if c == '\r' {
        seq!['\\', 'r']
    } else if (c as u32) < 32 {
        seq!['\\', 'u', '0', '0', hex_char(((c as u32) / 16) as int), hex_char(
            ((c as u32) % 16) as int,
        )]
    } else {
        seq![c]
    }
}

/// The escaped body of a JSON string.
pub open spec fn esc(s: Seq<char>) -> Seq<char>
    decreases s.len(),
{
    if s.len() == 0 {
        Seq::empty()
    } else {
        esc_char(s[0]) + esc(s.drop_first())
    }
}

/// A JSON string: quote, escaped body, quote.
pub open spec fn enc_str(s: Seq<char>) -> Seq<char> {
    seq!['"'] + esc(s) + seq!['"']
}

/// Read a string body up to its closing quote, undoing the escapes: the two
/// backslash escapes, the short control escapes, and `\u00..`. Anything else
/// after a backslash, or a missing closing quote, reads as nothing.
pub open spec fn dec_str_body(s: Seq<char>, i: int) -> Option<(Seq<char>, int)>
    decreases s.len() - i,
    when 0 <= i <= s.len()
{
    if i >= s.len() {
        None
    } else if s[i] == '"' {
        Some((Seq::empty(), i + 1))
    } else if s[i] == '\\' {
        if i + 1 < s.len() && (s[i + 1] == '"' || s[i + 1] == '\\') {
            match dec_str_body(s, i + 2) {
                Some(r) => Some((seq![s[i + 1]] + r.0, r.1)),
                None => None,
            }
        } else if i + 1 < s.len() && s[i + 1] == 'n' {
            match dec_str_body(s, i + 2) {
                Some(r) => Some((seq!['\n'] + r.0, r.1)),
                None => None,
            }
        } else if i + 1 < s.len() && s[i + 1] == 't' {
            match dec_str_body(s, i + 2) {
                Some(r) => Some((seq!['\t'] + r.0, r.1)),
                None => None,
            }
        } else if i + 1 < s.len() && s[i + 1] == 'r' {
            match dec_str_body(s, i + 2) {
                Some(r) => Some((seq!['\r'] + r.0, r.1)),
                None => None,
            }
        } else if i + 1 < s.len() && s[i + 1] == 'b' {
            match dec_str_body(s, i + 2) {
                Some(r) => Some((seq![(8 as u8) as char] + r.0, r.1)),
                None => None,
            }
        } else if i + 1 < s.len() && s[i + 1] == 'f' {
            match dec_str_body(s, i + 2) {
                Some(r) => Some((seq![(12 as u8) as char] + r.0, r.1)),
                None => None,
            }
        } else if i + 1 < s.len() && s[i + 1] == 'u' {
            if i + 5 < s.len() && s[i + 2] == '0' && s[i + 3] == '0' && is_hex_lower(s[i + 4])
                && is_hex_lower(s[i + 5]) {
                match dec_str_body(s, i + 6) {
                    Some(r) => Some(
                        (
                            seq![((hex_val(s[i + 4]) * 16 + hex_val(s[i + 5])) as u8) as char]
                                + r.0,
                            r.1,
                        ),
                    ),
                    None => None,
                }
            } else {
                None
            }
        } else {
            None
        }
    } else {
        match dec_str_body(s, i + 1) {
            Some(r) => Some((seq![s[i]] + r.0, r.1)),
            None => None,
        }
    }
}

/// Read a JSON string at `i`: an opening quote, then its body.
pub open spec fn dec_str_at(s: Seq<char>, i: int) -> Option<(Seq<char>, int)> {
    if 0 <= i < s.len() && s[i] == '"' {
        dec_str_body(s, i + 1)
    } else {
        None
    }
}

/// Reading an escaped body followed by a quote yields the original text.
proof fn lemma_dec_str_body_enc(s: Seq<char>, i: int, t: Seq<char>)
    requires
        0 <= i,
        i + esc(t).len() + 1 <= s.len(),
        s.subrange(i, i + esc(t).len() as int) == esc(t),
        s[i + esc(t).len()] == '"',
    ensures
        dec_str_body(s, i) == Some((t, i + esc(t).len() + 1)),
    decreases t.len(),
{
    let e = esc(t);
    if t.len() == 0 {
        assert(s[i] == '"');
    } else {
        let c = t[0];
        let tt = t.drop_first();
        let et = esc(tt);
        assert(e == esc_char(c) + et);
        assert forall|k: int| 0 <= k < e.len() implies s[i + k] == e[k] by {
            assert(s.subrange(i, i + e.len() as int)[k] == s[i + k]);
        }
        if c == '"' || c == '\\' {
            assert(e[0] == '\\' && e[1] == c);
            assert(s[i] == '\\' && s[i + 1] == c);
            assert(s.subrange(i + 2, i + 2 + et.len() as int) =~= et) by {
                assert forall|k: int| 0 <= k < et.len() implies s.subrange(
                    i + 2,
                    i + 2 + et.len() as int,
                )[k] == et[k] by {
                    assert(s[i + 2 + k] == e[2 + k]);
                    assert(e[2 + k] == et[k]);
                }
            }
            lemma_dec_str_body_enc(s, i + 2, tt);
            assert(seq![s[i + 1]] + tt =~= t);
        } else if c == '\n' || c == '\t' || c == '\r' {
            let x = if c == '\n' {
                'n'
            } else if c == '\t' {
                't'
            } else {
                'r'
            };
            assert(e[0] == '\\' && e[1] == x);
            assert(s[i] == '\\' && s[i + 1] == x);
            assert(s.subrange(i + 2, i + 2 + et.len() as int) =~= et) by {
                assert forall|k: int| 0 <= k < et.len() implies s.subrange(
                    i + 2,
                    i + 2 + et.len() as int,
                )[k] == et[k] by {
                    assert(s[i + 2 + k] == e[2 + k]);
                    assert(e[2 + k] == et[k]);
                }
            }
            lemma_dec_str_body_enc(s, i + 2, tt);
            assert(seq![c] + tt =~= t);
        } else if (c as u32) < 32 {
            let u = c as u32;
            let hi = (u / 16) as int;
            let lo = (u % 16) as int;
            lemma_hex_roundtrip(hi);
            lemma_hex_roundtrip(lo);
            assert(e[0] == '\\' && e[1] == 'u' && e[2] == '0' && e[3] == '0' && e[4] == hex_char(
                hi,
            ) && e[5] == hex_char(lo));
            assert(s[i] == '\\' && s[i + 1] == 'u' && s[i + 2] == '0' && s[i + 3] == '0'
                && s[i + 4] == hex_char(hi) && s[i + 5] == hex_char(lo));
            assert(hex_val(s[i + 4]) * 16 + hex_val(s[i + 5]) == u as int);
            let dc = ((hex_val(s[i + 4]) * 16 + hex_val(s[i + 5])) as u8) as char;
            assert(dc == c) by {
                assert(dc as u32 == u);
                vstd::utf8::char_u32_cast(dc, u);
                vstd::utf8::char_u32_cast(c, u);
            }
            assert(s.subrange(i + 6, i + 6 + et.len() as int) =~= et) by {
                assert forall|k: int| 0 <= k < et.len() implies s.subrange(
                    i + 6,
                    i + 6 + et.len() as int,
                )[k] == et[k] by {
                    assert(s[i + 6 + k] == e[6 + k]);
                    assert(e[6 + k] == et[k]);
                }
            }
            lemma_dec_str_body_enc(s, i + 6, tt);
            assert(seq![dc] + tt =~= t);
        } else {
            assert(e[0] == c);
            assert(s[i] == c);
            assert(s.subrange(i + 1, i + 1 + et.len() as int) =~= et) by {
                assert forall|k: int| 0 <= k < et.len() implies s.subrange(
                    i + 1,
                    i + 1 + et.len() as int,
                )[k] == et[k] by {
                    assert(s[i + 1 + k] == e[1 + k]);
                    assert(e[1 + k] == et[k]);
                }
            }
            lemma_dec_str_body_enc(s, i + 1, tt);
            assert(seq![s[i]] + tt =~= t);
        }
    }
}

/// Reading at the start of `enc_str(t)` yields `t` and stops right after it.
proof fn lemma_dec_str_enc(s: Seq<char>, i: int, t: Seq<char>)
    requires
        0 <= i,
        i + enc_str(t).len() <= s.len(),
        s.subrange(i, i + enc_str(t).len() as int) == enc_str(t),
    ensures
        dec_str_at(s, i) == Some((t, i + enc_str(t).len() as int)),
{
    let e = enc_str(t);
    assert(e.len() == esc(t).len() + 2);
    assert forall|k: int| 0 <= k < e.len() implies s[i + k] == e[k] by {
        assert(s.subrange(i, i + e.len() as int)[k] == s[i + k]);
    }
    assert(e[0] == '"');
    assert(s[i] == '"');
    assert(s.subrange(i + 1, i + 1 + esc(t).len() as int) =~= esc(t)) by {
        assert forall|k: int| 0 <= k < esc(t).len() implies s.subrange(
            i + 1,
            i + 1 + esc(t).len() as int,
        )[k] == esc(t)[k] by {
            assert(s[i + 1 + k] == e[1 + k]);
            assert(e[1 + k] == esc(t)[k]);
        }
    }
    assert(s[i + 1 + esc(t).len()] == e[e.len() - 1]);
    lemma_dec_str_body_enc(s, i + 1, t);
}

/// Reading at the start of `enc_u64(n)` yields `n` and stops right after it,
/// provided no further digit follows directly.
proof fn lemma_dec_u64_enc(s: Seq<char>, i: int, n: u64)
    requires
        0 <= i,
        i + enc_u64(n).len() <= s.len(),
        s.subrange(i, i + enc_u64(n).len() as int) == enc_u64(n),
        i + enc_u64(n).len() == s.len() || !is_digit(s[i + enc_u64(n).len()]),
    ensures
        dec_u64_at(s, i) == Some((n, i + enc_u64(n).len() as int)),
{
    let e = enc_u64(n);
    let j = i + e.len() as int;
    lemma_enc_u64_digits(n);
    assert forall|k: int| i <= k < j implies is_digit(#[trigger] s[k]) by {
        assert(s[k] == e[k - i]);
    }
    lemma_digits_end_run(s, i, j);
    lemma_digits_val_enc(s, i, n);
}

} // verus!

verus! {

// ---------------------------------------------------------------------------
// literals, booleans, composite encoders
// ---------------------------------------------------------------------------
/// `lit` stands verbatim at position `i` of `s`.
pub open spec fn lit_at(s: Seq<char>, i: int, lit: Seq<char>) -> bool {
    0 <= i && i + lit.len() <= s.len() && s.subrange(i, i + lit.len() as int) == lit
}

/// `true` or `false`.
pub open spec fn enc_bool(b: bool) -> Seq<char> {
    if b {
        seq!['t', 'r', 'u', 'e']
    } else {
        seq!['f', 'a', 'l', 's', 'e']
    }
}

/// Read `true` or `false` at `i`.
pub open spec fn dec_bool_at(s: Seq<char>, i: int) -> Option<(bool, int)> {
    if lit_at(s, i, enc_bool(true)) {
        Some((true, i + 4))
    } else if lit_at(s, i, enc_bool(false)) {
        Some((false, i + 5))
    } else {
        None
    }
}

/// A user record on the wire.
pub open spec fn enc_user(u: UserModel) -> Seq<char> {
    "{\"name\":"@ + enc_str(u.name) + ",\"uid\":"@ + enc_u64(u.uid as u64) + "}"@
}

/// A device list on the wire: the numbers, comma-separated, in brackets.
pub open spec fn enc_u64_items(v: Seq<int>) -> Seq<char>
    decreases v.len(),
{
    if v.len() == 0 {
        Seq::empty()
    } else if v.len() == 1 {
        enc_u64(v[0] as u64)
    } else {
        enc_u64(v[0] as u64) + seq![','] + enc_u64_items(v.drop_first())
    }
}

pub open spec fn enc_u64_list(v: Seq<int>) -> Seq<char> {
    seq!['['] + enc_u64_items(v) + seq![']']
}

/// One active-job description on the wire.
pub open spec fn enc_desc(d: JobDescModel) -> Seq<char> {
    "{\"id\":"@ + enc_u64(d.id as u64) + ",\"owner\":"@ + enc_user(d.owner)
        + ",\"requested_gpus\":"@ + enc_u64_list(d.requested_gpus) + "}"@
}

/// One queued-job entry on the wire.
pub open spec fn enc_entry(e: EntryModel) -> Seq<char> {
    "{\"queue_position\":"@ + enc_u64(e.queue_position as u64) + ",\"job\":"@ + enc_desc(e.job)
        + "}"@
}

/// One device lock on the wire: the owning user, or `null`.
pub open spec fn enc_lock(o: Option<UserModel>) -> Seq<char> {
    match o {
        Some(u) => enc_user(u),
        None => seq!['n', 'u', 'l', 'l'],
    }
}

pub open spec fn enc_lock_items(v: Seq<Option<UserModel>>) -> Seq<char>
    decreases v.len(),
{
    if v.len() == 0 {
        Seq::empty()
    } else if v.len() == 1 {
        enc_lock(v[0])
    } else {
        enc_lock(v[0]) + seq![','] + enc_lock_items(v.drop_first())
    }
}

pub open spec fn enc_desc_items(v: Seq<JobDescModel>) -> Seq<char>
    decreases v.len(),
{
    if v.len() == 0 {
        Seq::empty()
    } else if v.len() == 1 {
        enc_desc(v[0])
    } else {
        enc_desc(v[0]) + seq![','] + enc_desc_items(v.drop_first())
    }
}

pub open spec fn enc_entry_items(v: Seq<EntryModel>) -> Seq<char>
    decreases v.len(),
{
    if v.len() == 0 {
        Seq::empty()
    } else if v.len() == 1 {
        enc_entry(v[0])
    } else {
        enc_entry(v[0]) + seq![','] + enc_entry_items(v.drop_first())
    }
}

/// A whole command on the wire: serde's externally tagged convention, keys
/// in declaration order, no whitespace.
pub open spec fn enc_command(c: CommandModel) -> Seq<char> {
    match c {
        CommandModel::Status => "\"Status\""@,
        CommandModel::Kill => "\"Kill\""@,
        CommandModel::ActiveJobs => "\"ActiveJobs\""@,
        CommandModel::SetWatch { device_number, watching } => "{\"SetWatch\":{\"device_number\":"@
            + enc_u64(device_number as u64) + ",\"watching\":"@ + enc_bool(watching) + "}}"@,
        CommandModel::QueueJob { user, image_id, gpus } => "{\"QueueJob\":{\"user\":"@ + enc_user(
            user,
        ) + ",\"image_id\":"@ + enc_str(image_id) + ",\"gpus\":"@ + enc_u64_list(gpus) + "}}"@,
        CommandModel::MyJobs { uid } => "{\"MyJobs\":{\"uid\":"@ + enc_u64(uid as u64) + "}}"@,
    }
}

/// A whole response on the wire.
pub open spec fn enc_response(r: ResponseModel) -> Seq<char> {
    match r {
        ResponseModel::Success => "\"Success\""@,
        ResponseModel::Error(m) => "{\"Error\":"@ + enc_str(m) + "}"@,
        ResponseModel::GPUStatus { locks } => "{\"GPUStatus\":{\"locks\":["@ + enc_lock_items(
            locks,
        ) + "]}}"@,
        ResponseModel::ActiveJobs(v) => "{\"ActiveJobs\":["@ + enc_desc_items(v) + "]}"@,
        ResponseModel::MyJobs(v) => "{\"MyJobs\":["@ + enc_entry_items(v) + "]}"@,
    }
}

/// The configuration file on the wire.
pub open spec fn enc_config(c: ConfigModel) -> Seq<char> {
    "{\"pings_api_key\":"@ + enc_str(c.pings_api_key) + "}"@
}

} // verus!

verus! {

// ---------------------------------------------------------------------------
// composite decoders
// ---------------------------------------------------------------------------
/// Read a user record at `i`.
pub open spec fn dec_user_at(s: Seq<char>, i: int) -> Option<(UserModel, int)> {
    if !lit_at(s, i, "{\"name\":"@) {
        None
    } else {
        match dec_str_at(s, i + "{\"name\":"@.len()) {
            Some((name, j)) => if !lit_at(s, j, ",\"uid\":"@) {
                None
            } else {
                match dec_u64_at(s, j + ",\"uid\":"@.len()) {
                    Some((uid, k)) => if uid <= usize::MAX as u64 && lit_at(s, k, seq!['}']) {
                        Some((UserModel { name, uid: uid as int }, k + 1))
                    } else {
                        None
                    },
                    None => None,
                }
            },
            None => None,
        }
    }
}

/// Read the comma-separated items of a non-empty device list, up to and
/// including the closing bracket. `fuel` only bounds the recursion; any
/// value at least the item count behaves the same.
pub open spec fn dec_u32_items(s: Seq<char>, i: int, fuel: nat) -> Option<(Seq<int>, int)>
    decreases fuel,
{
    if fuel == 0 {
        None
    } else {
        match dec_u64_at(s, i) {
            Some((v, j)) => if v > u32::MAX as u64 {
                None
            } else if lit_at(s, j, seq![',']) {
                match dec_u32_items(s, j + 1, (fuel - 1) as nat) {
                    Some((rest, k)) => Some((seq![v as int] + rest, k)),
                    None => None,
                }
            } else if lit_at(s, j, seq![']']) {
                Some((seq![v as int], j + 1))
            } else {
                None
            },
            None => None,
        }
    }
}

/// Read a whole device list at `i`, brackets included.
pub open spec fn dec_u32_list_at(s: Seq<char>, i: int) -> Option<(Seq<int>, int)> {
    if !lit_at(s, i, seq!['[']) {
        None
    } else if lit_at(s, i + 1, seq![']']) {
        Some((Seq::empty(), i + 2))
    } else {
        dec_u32_items(s, i + 1, s.len() as nat)
    }
}

/// Read one active-job description at `i`.
pub open spec fn dec_desc_at(s: Seq<char>, i: int) -> Option<(JobDescModel, int)> {
    if !lit_at(s, i, "{\"id\":"@) {
        None
    } else {
        match dec_u64_at(s, i + "{\"id\":"@.len()) {
            Some((id, j)) => if id > u16::MAX as u64 || !lit_at(s, j, ",\"owner\":"@) {
                None
            } else {
                match dec_user_at(s, j + ",\"owner\":"@.len()) {
                    Some((owner, k)) => if !lit_at(s, k, ",\"requested_gpus\":"@) {
                        None
                    } else {
                        match dec_u32_list_at(s, k + ",\"requested_gpus\":"@.len()) {
                            Some((gpus, m)) => if lit_at(s, m, seq!['}']) {
                                Some(
                                    (
                                        JobDescModel {
                                            id: id as int,
                                            owner,
                                            requested_gpus: gpus,
                                        },
                                        m + 1,
                                    ),
                                )
                            } else {
                                None
                            },
                            None => None,
                        }
                    },
                    None => None,
                }
            },
            None => None,
        }
    }
}

/// Read one queued-job entry at `i`.
pub open spec fn dec_entry_at(s: Seq<char>, i: int) -> Option<(EntryModel, int)> {
    if !lit_at(s, i, "{\"queue_position\":"@) {
        None
    } else {
        match dec_u64_at(s, i + "{\"queue_position\":"@.len()) {
            Some((pos, j)) => if pos > usize::MAX as u64 || !lit_at(s, j, ",\"job\":"@) {
                None
            } else {
                match dec_desc_at(s, j + ",\"job\":"@.len()) {
                    Some((job, k)) => if lit_at(s, k, seq!['}']) {
                        Some((EntryModel { queue_position: pos as int, job }, k + 1))
                    } else {
                        None
                    },
                    None => None,
                }
            },
            None => None,
        }
    }
}

/// Read one device lock at `i`: `null` or a user record.
pub open spec fn dec_lock_at(s: Seq<char>, i: int) -> Option<(Option<UserModel>, int)> {
    if lit_at(s, i, seq!['n', 'u', 'l', 'l']) {
        Some((None, i + 4))
    } else {
        match dec_user_at(s, i) {
            Some((u, j)) => Some((Some(u), j)),
            None => None,
        }
    }
}

/// Read the items of a non-empty lock list, closing bracket included.
pub open spec fn dec_lock_items(s: Seq<char>, i: int, fuel: nat) -> Option<
    (Seq<Option<UserModel>>, int),
>
    decreases fuel,
{
    if fuel == 0 {
        None
    } else {
        match dec_lock_at(s, i) {
            Some((v, j)) => if lit_at(s, j, seq![',']) {
                match dec_lock_items(s, j + 1, (fuel - 1) as nat) {
                    Some((rest, k)) => Some((seq![v] + rest, k)),
                    None => None,
                }
            } else if lit_at(s, j, seq![']']) {
                Some((seq![v], j + 1))
            } else {
                None
            },
            None => None,
        }
    }
}

/// Read the items of a non-empty description list, closing bracket included.
pub open spec fn dec_desc_items(s: Seq<char>, i: int, fuel: nat) -> Option<
    (Seq<JobDescModel>, int),
>
    decreases fuel,
{
    if fuel == 0 {
        None
    } else {
        match dec_desc_at(s, i) {
            Some((v, j)) => if lit_at(s, j, seq![',']) {
                match dec_desc_items(s, j + 1, (fuel - 1) as nat) {
                    Some((rest, k)) => Some((seq![v] + rest, k)),
                    None => None,
                }
            } else if lit_at(s, j, seq![']']) {
                Some((seq![v], j + 1))
            } else {
                None
            },
            None => None,
        }
    }
}

/// Read the items of a non-empty entry list, closing bracket included.
pub open spec fn dec_entry_items(s: Seq<char>, i: int, fuel: nat) -> Option<
    (Seq<EntryModel>, int),
>
    decreases fuel,
{
    if fuel == 0 {
        None
    } else {
        match dec_entry_at(s, i) {
            Some((v, j)) => if lit_at(s, j, seq![',']) {
                match dec_entry_items(s, j + 1, (fuel - 1) as nat) {
                    Some((rest, k)) => Some((seq![v] + rest, k)),
                    None => None,
                }
            } else if lit_at(s, j, seq![']']) {
                Some((seq![v], j + 1))
            } else {
                None
            },
            None => None,
        }
    }
}

/// Read a whole command document: one of the six variants, spanning all of
/// `s`. Anything else reads as nothing, and the daemon answers with an error.
pub open spec fn dec_command(s: Seq<char>) -> Option<CommandModel> {
    if s == "\"Status\""@ {
        Some(CommandModel::Status)
    } else if s == "\"Kill\""@ {
        Some(CommandModel::Kill)
    } else if s == "\"ActiveJobs\""@ {
        Some(CommandModel::ActiveJobs)
    } else if lit_at(s, 0, "{\"SetWatch\":{\"device_number\":"@) {
        match dec_u64_at(s, "{\"SetWatch\":{\"device_number\":"@.len() as int) {
            Some((d, j)) => if d > u32::MAX as u64 || !lit_at(s, j, ",\"watching\":"@) {
                None
            } else {
                match dec_bool_at(s, j + ",\"watching\":"@.len()) {
                    Some((w, k)) => if lit_at(s, k, "}}"@) && k + 2 == s.len() {
                        Some(CommandModel::SetWatch { device_number: d as int, watching: w })
                    } else {
                        None
                    },
                    None => None,
                }
            },
            None => None,
        }
    } else if lit_at(s, 0, "{\"QueueJob\":{\"user\":"@) {
        match dec_user_at(s, "{\"QueueJob\":{\"user\":"@.len() as int) {
            Some((user, j)) => if !lit_at(s, j, ",\"image_id\":"@) {
                None
            } else {
                match dec_str_at(s, j + ",\"image_id\":"@.len()) {
                    Some((image_id, k)) => if !lit_at(s, k, ",\"gpus\":"@) {
                        None
                    } else {
                        match dec_u32_list_at(s, k + ",\"gpus\":"@.len()) {
                            Some((gpus, m)) => if lit_at(s, m, "}}"@) && m + 2 == s.len() {
                                Some(CommandModel::QueueJob { user, image_id, gpus })
                            } else {
                                None
                            },
                            None => None,
                        }
                    },
                    None => None,
                }
            },
            None => None,
        }
    } else if lit_at(s, 0, "{\"MyJobs\":{\"uid\":"@) {
        match dec_u64_at(s, "{\"MyJobs\":{\"uid\":"@.len() as int) {
            Some((uid, j)) => if uid <= usize::MAX as u64 && lit_at(s, j, "}}"@) && j + 2
                == s.len() {
                Some(CommandModel::MyJobs { uid: uid as int })
            } else {
                None
            },
            None => None,
        }
    } else {
        None
    }
}

/// Read a whole response document: one of the five variants, spanning all
/// of `s`.
pub open spec fn dec_response(s: Seq<char>) -> Option<ResponseModel> {
    if s == "\"Success\""@ {
        Some(ResponseModel::Success)
    } else if lit_at(s, 0, "{\"Error\":"@) {
        match dec_str_at(s, "{\"Error\":"@.len() as int) {
            Some((m, j)) => if lit_at(s, j, seq!['}']) && j + 1 == s.len() {
                Some(ResponseModel::Error(m))
            } else {
                None
            },
            None => None,
        }
    } else if lit_at(s, 0, "{\"GPUStatus\":{\"locks\":["@) {
        let i = "{\"GPUStatus\":{\"locks\":["@.len() as int;
        if lit_at(s, i, "]}}"@) && i + 3 == s.len() {
            Some(ResponseModel::GPUStatus { locks: Seq::empty() })
        } else {
            match dec_lock_items(s, i, s.len() as nat) {
                Some((locks, j)) => if lit_at(s, j, "}}"@) && j + 2 == s.len() {
                    Some(ResponseModel::GPUStatus { locks })
                } else {
                    None
                },
                None => None,
            }
        }
    } else if lit_at(s, 0, "{\"ActiveJobs\":["@) {
        let i = "{\"ActiveJobs\":["@.len() as int;
        if lit_at(s, i, "]}"@) && i + 2 == s.len() {
            Some(ResponseModel::ActiveJobs(Seq::empty()))
        } else {
            match dec_desc_items(s, i, s.len() as nat) {
                Some((v, j)) => if lit_at(s, j, seq!['}']) && j + 1 == s.len() {
                    Some(ResponseModel::ActiveJobs(v))
                } else {
                    None
                },
                None => None,
            }
        }
    } else if lit_at(s, 0, "{\"MyJobs\":["@) {
        let i = "{\"MyJobs\":["@.len() as int;
        if lit_at(s, i, "]}"@) && i + 2 == s.len() {
            Some(ResponseModel::MyJobs(Seq::empty()))
        } else {
            match dec_entry_items(s, i, s.len() as nat) {
                Some((v, j)) => if lit_at(s, j, seq!['}']) && j + 1 == s.len() {
                    Some(ResponseModel::MyJobs(v))
                } else {
                    None
                },
                None => None,
            }
        }
    } else {
        None
    }
}

/// JSON's insignificant whitespace.
pub open spec fn is_ws(c: char) -> bool {
    c == ' ' || c == '\n' || c == '\t' || c == '\r'
}

/// The first position at or after `i` that holds no whitespace.
pub open spec fn skip_ws(s: Seq<char>, i: int) -> int
    decreases s.len() - i,
    when 0 <= i <= s.len()
{
    if i < s.len() && is_ws(s[i]) {
        skip_ws(s, i + 1)
    } else {
        i
    }
}

/// Read a configuration document, spanning all of `s`: one object with the
/// one key, with insignificant whitespace allowed between the tokens, as a
/// hand-written file carries it.
pub open spec fn dec_config(s: Seq<char>) -> Option<ConfigModel> {
    let i0 = skip_ws(s, 0);
    if !lit_at(s, i0, seq!['{']) {
        None
    } else {
        let i1 = skip_ws(s, i0 + 1);
        if !lit_at(s, i1, "\"pings_api_key\""@) {
            None
        } else {
            let i2 = skip_ws(s, i1 + "\"pings_api_key\""@.len());
            if !lit_at(s, i2, seq![':']) {
                None
            } else {
                match dec_str_at(s, skip_ws(s, i2 + 1)) {
                    Some((key, j)) => {
                        let j1 = skip_ws(s, j);
                        if lit_at(s, j1, seq!['}']) && skip_ws(s, j1 + 1) == s.len() {
                            Some(ConfigModel { pings_api_key: key })
                        } else {
                            None
                        }
                    },
                    None => None,
                }
            }
        }
    }
}

// ---------------------------------------------------------------------------
// validity: the ranges every view of an exec value satisfies
// ---------------------------------------------------------------------------
pub open spec fn valid_user(u: UserModel) -> bool {
    0 <= u.uid <= usize::MAX as int
}

pub open spec fn valid_gpus(v: Seq<int>) -> bool {
    forall|i: int| 0 <= i < v.len() ==> 0 <= #[trigger] v[i] <= u32::MAX as int
}

pub open spec fn valid_desc(d: JobDescModel) -> bool {
    0 <= d.id <= u16::MAX as int && valid_user(d.owner) && valid_gpus(d.requested_gpus)
}

pub open spec fn valid_entry(e: EntryModel) -> bool {
    0 <= e.queue_position <= usize::MAX as int && valid_desc(e.job)
}

pub open spec fn valid_command(c: CommandModel) -> bool {
    match c {
        CommandModel::Status => true,
        CommandModel::Kill => true,
        CommandModel::ActiveJobs => true,
        CommandModel::SetWatch { device_number, .. } => 0 <= device_number <= u32::MAX as int,
        CommandModel::QueueJob { user, gpus, .. } => valid_user(user) && valid_gpus(gpus),
        CommandModel::MyJobs { uid } => 0 <= uid <= usize::MAX as int,
    }
}

pub open spec fn valid_response(r: ResponseModel) -> bool {
    match r {
        ResponseModel::Success => true,
        ResponseModel::Error(_) => true,
        ResponseModel::GPUStatus { locks } => forall|i: int|
            0 <= i < locks.len() ==> match #[trigger] locks[i] {
                Some(u) => valid_user(u),
                None => true,
            },
        ResponseModel::ActiveJobs(v) => forall|i: int|
            0 <= i < v.len() ==> valid_desc(#[trigger] v[i]),
        ResponseModel::MyJobs(v) => forall|i: int|
            0 <= i < v.len() ==> valid_entry(#[trigger] v[i]),
    }
}

} // verus!

verus! {

// ---------------------------------------------------------------------------
// decoding inverts encoding
// ---------------------------------------------------------------------------
/// Within `s` holding `e` at `i`, the segment of `e` at `off` stands at
/// `i + off`.
proof fn lemma_part_at(s: Seq<char>, i: int, e: Seq<char>, off: int, part: Seq<char>)
    requires
        0 <= i,
        i + e.len() <= s.len(),
        s.subrange(i, i + e.len() as int) == e,
        0 <= off,
        off + part.len() <= e.len(),
        forall|k: int| 0 <= k < part.len() ==> e[off + k] == #[trigger] part[k],
    ensures
        s.subrange(i + off, i + off + part.len() as int) == part,
        lit_at(s, i + off, part),
{
    assert forall|k: int|
        0 <= k < part.len() implies s.subrange(i + off, i + off + part.len() as int)[k]
        == part[k] by {
        assert(s.subrange(i, i + e.len() as int)[off + k] == e[off + k]);
    }
    assert(s.subrange(i + off, i + off + part.len() as int) =~= part);
}

/// A non-empty item list takes at least one character per item.
proof fn lemma_enc_u64_items_len(v: Seq<int>)
    requires
        v.len() >= 1,
    ensures
        enc_u64_items(v).len() >= v.len(),
    decreases v.len(),
{
    lemma_enc_u64_digits(v[0] as u64);
    if v.len() > 1 {
        lemma_enc_u64_items_len(v.drop_first());
    }
}

/// Reading at the start of a user encoding yields the user back.
proof fn lemma_dec_user_enc(s: Seq<char>, i: int, u: UserModel)
    requires
        valid_user(u),
        0 <= i,
        i + enc_user(u).len() <= s.len(),
        s.subrange(i, i + enc_user(u).len() as int) == enc_user(u),
    ensures
        dec_user_at(s, i) == Some((u, i + enc_user(u).len() as int)),
{
    reveal_strlit("{\"name\":");
    reveal_strlit(",\"uid\":");
    let e = enc_user(u);
    let l1 = "{\"name\":"@;
    let st = enc_str(u.name);
    let l2 = ",\"uid\":"@;
    let nm = enc_u64(u.uid as u64);
    assert(e == l1 + st + l2 + nm + "}"@) by {
        reveal_strlit("}");
    }
    let o1 = 0int;
    let o2 = o1 + l1.len() as int;
    let o3 = o2 + st.len() as int;
    let o4 = o3 + l2.len() as int;
    let o5 = o4 + nm.len() as int;
    assert(e.len() == o5 + 1) by {
        reveal_strlit("}");
    }
    lemma_part_at(s, i, e, o1, l1);
    lemma_part_at(s, i, e, o2, st);
    lemma_part_at(s, i, e, o3, l2);
    lemma_part_at(s, i, e, o4, nm);
    assert(e[o5] == '}') by {
        reveal_strlit("}");
    }
    lemma_part_at(s, i, e, o5, seq!['}']);
    lemma_dec_str_enc(s, i + o2, u.name);
    assert(s[i + o5] == '}');
    assert(!is_digit('}'));
    lemma_dec_u64_enc(s, i + o4, u.uid as u64);
    assert(lit_at(s, i + o5, seq!['}']));
}

/// Reading the items of an encoded device list, closing bracket included,
/// yields the list back.
proof fn lemma_dec_u32_items_enc(s: Seq<char>, i: int, v: Seq<int>, fuel: nat)
    requires
        valid_gpus(v),
        v.len() >= 1,
        fuel >= v.len(),
        0 <= i,
        i + enc_u64_items(v).len() + 1 <= s.len(),
        s.subrange(i, i + enc_u64_items(v).len() as int) == enc_u64_items(v),
        s[i + enc_u64_items(v).len()] == ']',
    ensures
        dec_u32_items(s, i, fuel) == Some((v, i + enc_u64_items(v).len() + 1)),
    decreases v.len(),
{
    let e = enc_u64_items(v);
    let n0 = enc_u64(v[0] as u64);
    assert forall|k: int| 0 <= k < e.len() implies s[i + k] == e[k] by {
        assert(s.subrange(i, i + e.len() as int)[k] == s[i + k]);
    }
    if v.len() == 1 {
        assert(e == n0);
        lemma_dec_u64_enc(s, i, v[0] as u64);
        assert((v[0] as u64) <= u32::MAX as u64);
        assert(s[i + n0.len()] == ']');
        assert(lit_at(s, i + n0.len() as int, seq![']'])) by {
            assert(s.subrange(
                i + n0.len() as int,
                i + n0.len() as int + 1,
            ) =~= seq![']']);
        }
        assert(!lit_at(s, i + n0.len() as int, seq![','])) by {
            if lit_at(s, i + n0.len() as int, seq![',']) {
                assert(s.subrange(
                    i + n0.len() as int,
                    i + n0.len() as int + 1,
                )[0] == ',');
            }
        }
        assert(seq![v[0]] =~= v);
    } else {
        let rest = v.drop_first();
        let er = enc_u64_items(rest);
        assert(e == n0 + seq![','] + er);
        lemma_part_at(s, i, e, 0, n0);
        assert(e[n0.len() as int] == ',');
        lemma_part_at(s, i, e, n0.len() as int, seq![',']);
        assert(s[i + n0.len()] == ',');
        assert(!is_digit(','));
        lemma_dec_u64_enc(s, i, v[0] as u64);
        assert((v[0] as u64) <= u32::MAX as u64);
        let i2 = i + n0.len() as int + 1;
        assert(s.subrange(i2, i2 + er.len() as int) =~= er) by {
            assert forall|k: int| 0 <= k < er.len() implies s.subrange(i2, i2 + er.len() as int)[k]
                == er[k] by {
                assert(s[i2 + k] == e[n0.len() + 1 + k]);
            }
        }
        assert(s[i2 + er.len()] == ']') by {
            assert(i2 + er.len() == i + e.len());
        }
        lemma_dec_u32_items_enc(s, i2, rest, (fuel - 1) as nat);
        assert(lit_at(s, i + n0.len() as int, seq![',']));
        assert(!lit_at(s, i + n0.len() as int, seq![']'])) by {
            if lit_at(s, i + n0.len() as int, seq![']']) {
                assert(s.subrange(
                    i + n0.len() as int,
                    i + n0.len() as int + 1,
                )[0] == ']');
            }
        }
        assert(seq![v[0]] + rest =~= v);
    }
}

/// Reading at the start of an encoded device list yields the list back.
proof fn lemma_dec_u32_list_enc(s: Seq<char>, i: int, v: Seq<int>)
    requires
        valid_gpus(v),
        0 <= i,
        i + enc_u64_list(v).len() <= s.len(),
        s.subrange(i, i + enc_u64_list(v).len() as int) == enc_u64_list(v),
    ensures
        dec_u32_list_at(s, i) == Some((v, i + enc_u64_list(v).len() as int)),
{
    let e = enc_u64_list(v);
    let items = enc_u64_items(v);
    assert forall|k: int| 0 <= k < e.len() implies s[i + k] == e[k] by {
        assert(s.subrange(i, i + e.len() as int)[k] == s[i + k]);
    }
    assert(e[0] == '[');
    assert(s[i] == '[');
    assert(lit_at(s, i, seq!['['])) by {
        assert(s.subrange(i, i + 1) =~= seq!['[']);
    }
    if v.len() == 0 {
        assert(e[1] == ']');
        assert(lit_at(s, i + 1, seq![']'])) by {
            assert(s.subrange(i + 1, i + 2) =~= seq![']']);
        }
        assert(Seq::<int>::empty() =~= v);
    } else {
        lemma_enc_u64_items_len(v);
        lemma_enc_u64_digits(v[0] as u64);
        assert(e[1] == items[0]);
        assert(is_digit(items[0])) by {
            assert(items[0] == enc_u64(v[0] as u64)[0]) by {
                if v.len() == 1 {
                } else {
                    assert(items == enc_u64(v[0] as u64) + seq![','] + enc_u64_items(
                        v.drop_first(),
                    ));
                }
            }
        }
        assert(!lit_at(s, i + 1, seq![']'])) by {
            if lit_at(s, i + 1, seq![']']) {
                assert(s.subrange(i + 1, i + 2)[0] == ']');
                assert(s[i + 1] == ']');
                assert(!is_digit(']'));
            }
        }
        assert(s.subrange(i + 1, i + 1 + items.len() as int) =~= items) by {
            assert forall|k: int| 0 <= k < items.len() implies s.subrange(
                i + 1,
                i + 1 + items.len() as int,
            )[k] == items[k] by {
                assert(s[i + 1 + k] == e[1 + k]);
            }
        }
        assert(s[i + 1 + items.len()] == ']') by {
            assert(e[1 + items.len() as int] == ']');
        }
        lemma_dec_u32_items_enc(s, i + 1, v, s.len() as nat);
    }
}

} // verus!

verus! {

/// Reading at the start of a description encoding yields it back.
proof fn lemma_dec_desc_enc(s: Seq<char>, i: int, d: JobDescModel)
    requires
        valid_desc(d),
        0 <= i,
        i + enc_desc(d).len() <= s.len(),
        s.subrange(i, i + enc_desc(d).len() as int) == enc_desc(d),
    ensures
        dec_desc_at(s, i) == Some((d, i + enc_desc(d).len() as int)),
{
    reveal_strlit("{\"id\":");
    reveal_strlit(",\"owner\":");
    reveal_strlit(",\"requested_gpus\":");
    reveal_strlit("}");
    let e = enc_desc(d);
    let l1 = "{\"id\":"@;
    let nm = enc_u64(d.id as u64);
    let l2 = ",\"owner\":"@;
    let us = enc_user(d.owner);
    let l3 = ",\"requested_gpus\":"@;
    let gl = enc_u64_list(d.requested_gpus);
    assert(e == l1 + nm + l2 + us + l3 + gl + "}"@);
    let o1 = 0int;
    let o2 = o1 + l1.len() as int;
    let o3 = o2 + nm.len() as int;
    let o4 = o3 + l2.len() as int;
    let o5 = o4 + us.len() as int;
    let o6 = o5 + l3.len() as int;
    let o7 = o6 + gl.len() as int;
    assert(e.len() == o7 + 1);
    lemma_part_at(s, i, e, o1, l1);
    lemma_part_at(s, i, e, o2, nm);
    lemma_part_at(s, i, e, o3, l2);
    lemma_part_at(s, i, e, o4, us);
    lemma_part_at(s, i, e, o5, l3);
    lemma_part_at(s, i, e, o6, gl);
    assert(e[o7] == '}');
    lemma_part_at(s, i, e, o7, seq!['}']);
    assert(s[i + o3] == ',') by {
        assert(e[o3] == l2[0]);
    }
    assert(!is_digit(','));
    lemma_dec_u64_enc(s, i + o2, d.id as u64);
    lemma_dec_user_enc(s, i + o4, d.owner);
    lemma_dec_u32_list_enc(s, i + o6, d.requested_gpus);
}

/// Reading at the start of an entry encoding yields it back.
proof fn lemma_dec_entry_enc(s: Seq<char>, i: int, en: EntryModel)
    requires
        valid_entry(en),
        0 <= i,
        i + enc_entry(en).len() <= s.len(),
        s.subrange(i, i + enc_entry(en).len() as int) == enc_entry(en),
    ensures
        dec_entry_at(s, i) == Some((en, i + enc_entry(en).len() as int)),
{
    reveal_strlit("{\"queue_position\":");
    reveal_strlit(",\"job\":");
    reveal_strlit("}");
    let e = enc_entry(en);
    let l1 = "{\"queue_position\":"@;
    let nm = enc_u64(en.queue_position as u64);
    let l2 = ",\"job\":"@;
    let ds = enc_desc(en.job);
    assert(e == l1 + nm + l2 + ds + "}"@);
    let o1 = 0int;
    let o2 = o1 + l1.len() as int;
    let o3 = o2 + nm.len() as int;
    let o4 = o3 + l2.len() as int;
    let o5 = o4 + ds.len() as int;
    assert(e.len() == o5 + 1);
    lemma_part_at(s, i, e, o1, l1);
    lemma_part_at(s, i, e, o2, nm);
    lemma_part_at(s, i, e, o3, l2);
    lemma_part_at(s, i, e, o4, ds);
    assert(e[o5] == '}');
    lemma_part_at(s, i, e, o5, seq!['}']);
    assert(s[i + o3] == ',') by {
        assert(e[o3] == l2[0]);
    }
    assert(!is_digit(','));
    lemma_dec_u64_enc(s, i + o2, en.queue_position as u64);
    lemma_dec_desc_enc(s, i + o4, en.job);
}

/// Reading at the start of a lock encoding yields it back.
proof fn lemma_dec_lock_enc(s: Seq<char>, i: int, o: Option<UserModel>)
    requires
        match o {
            Some(u) => valid_user(u),
            None => true,
        },
        0 <= i,
        i + enc_lock(o).len() <= s.len(),
        s.subrange(i, i + enc_lock(o).len() as int) == enc_lock(o),
    ensures
        dec_lock_at(s, i) == Some((o, i + enc_lock(o).len() as int)),
{
    let e = enc_lock(o);
    assert forall|k: int| 0 <= k < e.len() implies s[i + k] == e[k] by {
        assert(s.subrange(i, i + e.len() as int)[k] == s[i + k]);
    }
    match o {
        None => {
            assert(s.subrange(i, i + 4) =~= seq!['n', 'u', 'l', 'l']);
        },
        Some(u) => {
            reveal_strlit("{\"name\":");
            assert(e == enc_user(u));
            assert(e[0] == '{') by {
                assert(e == "{\"name\":"@ + enc_str(u.name) + ",\"uid\":"@ + enc_u64(
                    u.uid as u64,
                ) + "}"@) by {
                    reveal_strlit(",\"uid\":");
                    reveal_strlit("}");
                }
            }
            assert(!lit_at(s, i, seq!['n', 'u', 'l', 'l'])) by {
                if lit_at(s, i, seq!['n', 'u', 'l', 'l']) {
                    assert(s.subrange(i, i + 4)[0] == 'n');
                    assert(s[i] == e[0]);
                }
            }
            lemma_dec_user_enc(s, i, u);
        },
    }
}

/// Every lock encoding takes at least one character.
proof fn lemma_enc_lock_len(o: Option<UserModel>)
    ensures
        enc_lock(o).len() >= 1,
{
    match o {
        None => {},
        Some(u) => {
            reveal_strlit("{\"name\":");
            reveal_strlit(",\"uid\":");
            reveal_strlit("}");
        },
    }
}

/// A non-empty lock list takes at least one character per lock.
proof fn lemma_enc_lock_items_len(v: Seq<Option<UserModel>>)
    requires
        v.len() >= 1,
    ensures
        enc_lock_items(v).len() >= v.len(),
    decreases v.len(),
{
    lemma_enc_lock_len(v[0]);
    if v.len() > 1 {
        lemma_enc_lock_items_len(v.drop_first());
    }
}

/// A description encoding takes at least one character.
proof fn lemma_enc_desc_len(d: JobDescModel)
    ensures
        enc_desc(d).len() >= 1,
{
    reveal_strlit("{\"id\":");
    reveal_strlit(",\"owner\":");
    reveal_strlit(",\"requested_gpus\":");
    reveal_strlit("}");
}

/// A non-empty description list takes at least one character per item.
proof fn lemma_enc_desc_items_len(v: Seq<JobDescModel>)
    requires
        v.len() >= 1,
    ensures
        enc_desc_items(v).len() >= v.len(),
    decreases v.len(),
{
    lemma_enc_desc_len(v[0]);
    if v.len() > 1 {
        lemma_enc_desc_items_len(v.drop_first());
    }
}

/// An entry encoding takes at least one character.
proof fn lemma_enc_entry_len(e: EntryModel)
    ensures
        enc_entry(e).len() >= 1,
{
    reveal_strlit("{\"queue_position\":");
    reveal_strlit(",\"job\":");
    reveal_strlit("}");
}

/// A non-empty entry list takes at least one character per item.
proof fn lemma_enc_entry_items_len(v: Seq<EntryModel>)
    requires
        v.len() >= 1,
    ensures
        enc_entry_items(v).len() >= v.len(),
    decreases v.len(),
{
    lemma_enc_entry_len(v[0]);
    if v.len() > 1 {
        lemma_enc_entry_items_len(v.drop_first());
    }
}

/// Reading an encoded lock list's items, closing bracket included, yields
/// the locks back.
proof fn lemma_dec_lock_items_enc(s: Seq<char>, i: int, v: Seq<Option<UserModel>>, fuel: nat)
    requires
        forall|k: int|
            0 <= k < v.len() ==> match #[trigger] v[k] {
                Some(u) => valid_user(u),
                None => true,
            },
        v.len() >= 1,
        fuel >= v.len(),
        0 <= i,
        i + enc_lock_items(v).len() + 1 <= s.len(),
        s.subrange(i, i + enc_lock_items(v).len() as int) == enc_lock_items(v),
        s[i + enc_lock_items(v).len()] == ']',
    ensures
        dec_lock_items(s, i, fuel) == Some((v, i + enc_lock_items(v).len() + 1)),
    decreases v.len(),
{
    let e = enc_lock_items(v);
    let n0 = enc_lock(v[0]);
    assert forall|k: int| 0 <= k < e.len() implies s[i + k] == e[k] by {
        assert(s.subrange(i, i + e.len() as int)[k] == s[i + k]);
    }
    if v.len() == 1 {
        assert(e == n0);
        lemma_dec_lock_enc(s, i, v[0]);
        assert(lit_at(s, i + n0.len() as int, seq![']'])) by {
            assert(s.subrange(i + n0.len() as int, i + n0.len() as int + 1) =~= seq![']']);
        }
        assert(!lit_at(s, i + n0.len() as int, seq![','])) by {
            if lit_at(s, i + n0.len() as int, seq![',']) {
                assert(s.subrange(i + n0.len() as int, i + n0.len() as int + 1)[0] == ',');
            }
        }
        assert(seq![v[0]] =~= v);
    } else {
        let rest = v.drop_first();
        let er = enc_lock_items(rest);
        assert(e == n0 + seq![','] + er);
        lemma_part_at(s, i, e, 0, n0);
        assert(e[n0.len() as int] == ',');
        lemma_part_at(s, i, e, n0.len() as int, seq![',']);
        lemma_dec_lock_enc(s, i, v[0]);
        let i2 = i + n0.len() as int + 1;
        assert(s.subrange(i2, i2 + er.len() as int) =~= er) by {
            assert forall|k: int| 0 <= k < er.len() implies s.subrange(i2, i2 + er.len() as int)[k]
                == er[k] by {
                assert(s[i2 + k] == e[n0.len() + 1 + k]);
            }
        }
        assert(s[i2 + er.len()] == ']') by {
            assert(i2 + er.len() == i + e.len());
        }
        lemma_dec_lock_items_enc(s, i2, rest, (fuel - 1) as nat);
        assert(lit_at(s, i + n0.len() as int, seq![',']));
        assert(!lit_at(s, i + n0.len() as int, seq![']'])) by {
            if lit_at(s, i + n0.len() as int, seq![']']) {
                assert(s.subrange(i + n0.len() as int, i + n0.len() as int + 1)[0] == ']');
            }
        }
        assert(seq![v[0]] + rest =~= v);
    }
}

/// Reading an encoded description list's items, closing bracket included,
/// yields the descriptions back.
proof fn lemma_dec_desc_items_enc(s: Seq<char>, i: int, v: Seq<JobDescModel>, fuel: nat)
    requires
        forall|k: int| 0 <= k < v.len() ==> valid_desc(#[trigger] v[k]),
        v.len() >= 1,
        fuel >= v.len(),
        0 <= i,
        i + enc_desc_items(v).len() + 1 <= s.len(),
        s.subrange(i, i + enc_desc_items(v).len() as int) == enc_desc_items(v),
        s[i + enc_desc_items(v).len()] == ']',
    ensures
        dec_desc_items(s, i, fuel) == Some((v, i + enc_desc_items(v).len() + 1)),
    decreases v.len(),
{
    let e = enc_desc_items(v);
    let n0 = enc_desc(v[0]);
    assert forall|k: int| 0 <= k < e.len() implies s[i + k] == e[k] by {
        assert(s.subrange(i, i + e.len() as int)[k] == s[i + k]);
    }
    if v.len() == 1 {
        assert(e == n0);
        lemma_dec_desc_enc(s, i, v[0]);
        assert(lit_at(s, i + n0.len() as int, seq![']'])) by {
            assert(s.subrange(i + n0.len() as int, i + n0.len() as int + 1) =~= seq![']']);
        }
        assert(!lit_at(s, i + n0.len() as int, seq![','])) by {
            if lit_at(s, i + n0.len() as int, seq![',']) {
                assert(s.subrange(i + n0.len() as int, i + n0.len() as int + 1)[0] == ',');
            }
        }
        assert(seq![v[0]] =~= v);
    } else {
        let rest = v.drop_first();
        let er = enc_desc_items(rest);
        assert(e == n0 + seq![','] + er);
        lemma_part_at(s, i, e, 0, n0);
        assert(e[n0.len() as int] == ',');
        lemma_part_at(s, i, e, n0.len() as int, seq![',']);
        lemma_dec_desc_enc(s, i, v[0]);
        let i2 = i + n0.len() as int + 1;
        assert(s.subrange(i2, i2 + er.len() as int) =~= er) by {
            assert forall|k: int| 0 <= k < er.len() implies s.subrange(i2, i2 + er.len() as int)[k]
                == er[k] by {
                assert(s[i2 + k] == e[n0.len() + 1 + k]);
            }
        }
        assert(s[i2 + er.len()] == ']') by {
            assert(i2 + er.len() == i + e.len());
        }
        lemma_dec_desc_items_enc(s, i2, rest, (fuel - 1) as nat);
        assert(lit_at(s, i + n0.len() as int, seq![',']));
        assert(!lit_at(s, i + n0.len() as int, seq![']'])) by {
            if lit_at(s, i + n0.len() as int, seq![']']) {
                assert(s.subrange(i + n0.len() as int, i + n0.len() as int + 1)[0] == ']');
            }
        }
        assert(seq![v[0]] + rest =~= v);
    }
}

/// Reading an encoded entry list's items, closing bracket included, yields
/// the entries back.
proof fn lemma_dec_entry_items_enc(s: Seq<char>, i: int, v: Seq<EntryModel>, fuel: nat)
    requires
        forall|k: int| 0 <= k < v.len() ==> valid_entry(#[trigger] v[k]),
        v.len() >= 1,
        fuel >= v.len(),
        0 <= i,
        i + enc_entry_items(v).len() + 1 <= s.len(),
        s.subrange(i, i + enc_entry_items(v).len() as int) == enc_entry_items(v),
        s[i + enc_entry_items(v).len()] == ']',
    ensures
        dec_entry_items(s, i, fuel) == Some((v, i + enc_entry_items(v).len() + 1)),
    decreases v.len(),
{
    let e = enc_entry_items(v);
    let n0 = enc_entry(v[0]);
    assert forall|k: int| 0 <= k < e.len() implies s[i + k] == e[k] by {
        assert(s.subrange(i, i + e.len() as int)[k] == s[i + k]);
    }
    if v.len() == 1 {
        assert(e == n0);
        lemma_dec_entry_enc(s, i, v[0]);
        assert(lit_at(s, i + n0.len() as int, seq![']'])) by {
            assert(s.subrange(i + n0.len() as int, i + n0.len() as int + 1) =~= seq![']']);
        }
        assert(!lit_at(s, i + n0.len() as int, seq![','])) by {
            if lit_at(s, i + n0.len() as int, seq![',']) {
                assert(s.subrange(i + n0.len() as int, i + n0.len() as int + 1)[0] == ',');
            }
        }
        assert(seq![v[0]] =~= v);
    } else {
        let rest = v.drop_first();
        let er = enc_entry_items(rest);
        assert(e == n0 + seq![','] + er);
        lemma_part_at(s, i, e, 0, n0);
        assert(e[n0.len() as int] == ',');
        lemma_part_at(s, i, e, n0.len() as int, seq![',']);
        lemma_dec_entry_enc(s, i, v[0]);
        let i2 = i + n0.len() as int + 1;
        assert(s.subrange(i2, i2 + er.len() as int) =~= er) by {
            assert forall|k: int| 0 <= k < er.len() implies s.subrange(i2, i2 + er.len() as int)[k]
                == er[k] by {
                assert(s[i2 + k] == e[n0.len() + 1 + k]);
            }
        }
        assert(s[i2 + er.len()] == ']') by {
            assert(i2 + er.len() == i + e.len());
        }
        lemma_dec_entry_items_enc(s, i2, rest, (fuel - 1) as nat);
        assert(lit_at(s, i + n0.len() as int, seq![',']));
        assert(!lit_at(s, i + n0.len() as int, seq![']'])) by {
            if lit_at(s, i + n0.len() as int, seq![']']) {
                assert(s.subrange(i + n0.len() as int, i + n0.len() as int + 1)[0] == ']');
            }
        }
        assert(seq![v[0]] + rest =~= v);
    }
}

} // verus!

verus! {

/// The view of any command value lies in the ranges its types dictate.
pub proof fn lemma_command_view_valid(c: Command)
    ensures
        valid_command(c@),
{
    match c {
        Command::QueueJob { user, image_id, gpus } => {
            let m = gpus_view(gpus@);
            assert forall|i: int| 0 <= i < m.len() implies 0 <= #[trigger] m[i]
                <= u32::MAX as int by {
                assert(m[i] == gpus@[i] as int);
            }
        },
        _ => {},
    }
}

/// The view of any response value lies in the ranges its types dictate.
pub proof fn lemma_response_view_valid(r: Response)
    ensures
        valid_response(r@),
{
    match r {
        Response::GPUStatus { locks } => {
            let m = locks_view(locks@);
            assert forall|i: int| 0 <= i < m.len() implies match #[trigger] m[i] {
                Some(u) => valid_user(u),
                None => true,
            } by {
                assert(m[i] == lock_view(locks@[i]));
            }
        },
        Response::ActiveJobs(v) => {
            let m = descs_view(v@);
            assert forall|i: int| 0 <= i < m.len() implies valid_desc(#[trigger] m[i]) by {
                assert(m[i] == v@[i]@);
                let g = gpus_view(v@[i].requested_gpus@);
                assert forall|k: int| 0 <= k < g.len() implies 0 <= #[trigger] g[k]
                    <= u32::MAX as int by {
                    assert(g[k] == v@[i].requested_gpus@[k] as int);
                }
            }
        },
        Response::MyJobs(v) => {
            let m = entries_view(v@);
            assert forall|i: int| 0 <= i < m.len() implies valid_entry(#[trigger] m[i]) by {
                assert(m[i] == v@[i]@);
                let g = gpus_view(v@[i].job.requested_gpus@);
                assert forall|k: int| 0 <= k < g.len() implies 0 <= #[trigger] g[k]
                    <= u32::MAX as int by {
                    assert(g[k] == v@[i].job.requested_gpus@[k] as int);
                }
            }
        },
        _ => {},
    }
}

/// Protocol round trip for commands: a command written by the encoder is
/// read back unchanged by the decoder.
#[verifier::rlimit(100)]
#[verifier::spinoff_prover]
pub proof fn lemma_command_round_trip(c: CommandModel)
    requires
        valid_command(c),
    ensures
        dec_command(enc_command(c)) == Some(c),
{
    reveal_strlit("\"Status\"");
    reveal_strlit("\"Kill\"");
    reveal_strlit("\"ActiveJobs\"");
    reveal_strlit("{\"SetWatch\":{\"device_number\":");
    reveal_strlit("{\"QueueJob\":{\"user\":");
    reveal_strlit("{\"MyJobs\":{\"uid\":");
    reveal_strlit(",\"watching\":");
    reveal_strlit(",\"image_id\":");
    reveal_strlit(",\"gpus\":");
    reveal_strlit("}}");
    let s = enc_command(c);
    assert(s.subrange(0, s.len() as int) =~= s);
    match c {
        CommandModel::Status => {},
        CommandModel::Kill => {},
        CommandModel::ActiveJobs => {},
        CommandModel::SetWatch { device_number, watching } => {
            let l1 = "{\"SetWatch\":{\"device_number\":"@;
            let nm = enc_u64(device_number as u64);
            let l2 = ",\"watching\":"@;
            let b = enc_bool(watching);
            let l3 = "}}"@;
            assert(s == l1 + nm + l2 + b + l3);
            let o2 = l1.len() as int;
            let o3 = o2 + nm.len() as int;
            let o4 = o3 + l2.len() as int;
            let o5 = o4 + b.len() as int;
            assert(s.len() == o5 + 2);
            lemma_part_at(s, 0, s, 0, l1);
            lemma_part_at(s, 0, s, o2, nm);
            lemma_part_at(s, 0, s, o3, l2);
            lemma_part_at(s, 0, s, o4, b);
            lemma_part_at(s, 0, s, o5, l3);
            assert(s[0] == '{');
            assert(s != "\"Status\""@);
            assert(s != "\"Kill\""@);
            assert(s != "\"ActiveJobs\""@);
            assert(s[o3] == ',') by {
                assert(s[o3] == l2[0]);
            }
            assert(!is_digit(','));
            lemma_dec_u64_enc(s, o2, device_number as u64);
            if watching {
            } else {
                assert(!lit_at(s, o4, enc_bool(true))) by {
                    if lit_at(s, o4, enc_bool(true)) {
                        assert(s.subrange(o4, o4 + 4)[0] == 't');
                        assert(s[o4] == b[0]);
                    }
                }
            }
        },
        CommandModel::QueueJob { user, image_id, gpus } => {
            let l1 = "{\"QueueJob\":{\"user\":"@;
            let us = enc_user(user);
            let l2 = ",\"image_id\":"@;
            let st = enc_str(image_id);
            let l3 = ",\"gpus\":"@;
            let gl = enc_u64_list(gpus);
            let l4 = "}}"@;
            assert(s == l1 + us + l2 + st + l3 + gl + l4);
            let o2 = l1.len() as int;
            let o3 = o2 + us.len() as int;
            let o4 = o3 + l2.len() as int;
            let o5 = o4 + st.len() as int;
            let o6 = o5 + l3.len() as int;
            let o7 = o6 + gl.len() as int;
            assert(s.len() == o7 + 2);
            lemma_part_at(s, 0, s, 0, l1);
            lemma_part_at(s, 0, s, o2, us);
            lemma_part_at(s, 0, s, o3, l2);
            lemma_part_at(s, 0, s, o4, st);
            lemma_part_at(s, 0, s, o5, l3);
            lemma_part_at(s, 0, s, o6, gl);
            lemma_part_at(s, 0, s, o7, l4);
            assert(s[0] == '{');
            assert(s != "\"Status\""@);
            assert(s != "\"Kill\""@);
            assert(s != "\"ActiveJobs\""@);
            assert(!lit_at(s, 0, "{\"SetWatch\":{\"device_number\":"@)) by {
                if lit_at(s, 0, "{\"SetWatch\":{\"device_number\":"@) {
                    assert(s.subrange(0, "{\"SetWatch\":{\"device_number\":"@.len() as int)[2]
                        == 'S');
                    assert(s[2] == l1[2]);
                }
            }
            lemma_dec_user_enc(s, o2, user);
            lemma_dec_str_enc(s, o4, image_id);
            lemma_dec_u32_list_enc(s, o6, gpus);
        },
        CommandModel::MyJobs { uid } => {
            let l1 = "{\"MyJobs\":{\"uid\":"@;
            let nm = enc_u64(uid as u64);
            let l2 = "}}"@;
            assert(s == l1 + nm + l2);
            let o2 = l1.len() as int;
            let o3 = o2 + nm.len() as int;
            assert(s.len() == o3 + 2);
            lemma_part_at(s, 0, s, 0, l1);
            lemma_part_at(s, 0, s, o2, nm);
            lemma_part_at(s, 0, s, o3, l2);
            assert(s[0] == '{');
            assert(s != "\"Status\""@);
            assert(s != "\"Kill\""@);
            assert(s != "\"ActiveJobs\""@);
            assert(!lit_at(s, 0, "{\"SetWatch\":{\"device_number\":"@)) by {
                if lit_at(s, 0, "{\"SetWatch\":{\"device_number\":"@) {
                    assert(s.subrange(0, "{\"SetWatch\":{\"device_number\":"@.len() as int)[2]
                        == 'S');
                    assert(s[2] == l1[2]);
                }
            }
            assert(!lit_at(s, 0, "{\"QueueJob\":{\"user\":"@)) by {
                if lit_at(s, 0, "{\"QueueJob\":{\"user\":"@) {
                    assert(s.subrange(0, "{\"QueueJob\":{\"user\":"@.len() as int)[2] == 'Q');
                    assert(s[2] == l1[2]);
                }
            }
            assert(s[o3] == '}') by {
                assert(s[o3] == l2[0]);
            }
            assert(!is_digit('}'));
            lemma_dec_u64_enc(s, o2, uid as u64);
        },
    }
}

} // verus!

verus! {

/// The branch conditions of `dec_response` that a response document starting
/// with `{` and continuing with `tag` meets: none before its own.
proof fn lemma_resp_prefix_distinct(s: Seq<char>, first: Seq<char>)
    requires
        s.len() >= first.len(),
        first.len() >= 3,
        s.subrange(0, first.len() as int) == first,
        first[0] == '{',
    ensures
        s != "\"Success\""@,
        first[2] != 'E' ==> !lit_at(s, 0, "{\"Error\":"@),
        first[2] != 'G' ==> !lit_at(s, 0, "{\"GPUStatus\":{\"locks\":["@),
        first[2] != 'A' ==> !lit_at(s, 0, "{\"ActiveJobs\":["@),
        first[2] != 'M' ==> !lit_at(s, 0, "{\"MyJobs\":["@),
{
    reveal_strlit("\"Success\"");
    reveal_strlit("{\"Error\":");
    reveal_strlit("{\"GPUStatus\":{\"locks\":[");
    reveal_strlit("{\"ActiveJobs\":[");
    reveal_strlit("{\"MyJobs\":[");
    assert(s[0] == first[0]) by {
        assert(s.subrange(0, first.len() as int)[0] == first[0]);
    }
    assert(s[2] == first[2]) by {
        assert(s.subrange(0, first.len() as int)[2] == first[2]);
    }
    if s == "\"Success\""@ {
        assert(s[0] == '"');
        assert(false);
    }
    if first[2] != 'E' && lit_at(s, 0, "{\"Error\":"@) {
        assert(s.subrange(0, "{\"Error\":"@.len() as int)[2] == 'E');
        assert(false);
    }
    if first[2] != 'G' && lit_at(s, 0, "{\"GPUStatus\":{\"locks\":["@) {
        assert(s.subrange(0, "{\"GPUStatus\":{\"locks\":["@.len() as int)[2] == 'G');
        assert(false);
    }
    if first[2] != 'A' && lit_at(s, 0, "{\"ActiveJobs\":["@) {
        assert(s.subrange(0, "{\"ActiveJobs\":["@.len() as int)[2] == 'A');
        assert(false);
    }
    if first[2] != 'M' && lit_at(s, 0, "{\"MyJobs\":["@) {
        assert(s.subrange(0, "{\"MyJobs\":["@.len() as int)[2] == 'M');
        assert(false);
    }
}

/// Round trip of an error response.
#[verifier::spinoff_prover]
proof fn lemma_rt_error(m: Seq<char>)
    ensures
        dec_response(enc_response(ResponseModel::Error(m))) == Some(ResponseModel::Error(m)),
{
    reveal_strlit("{\"Error\":");
    reveal_strlit("}");
    let s = enc_response(ResponseModel::Error(m));
    assert(s.subrange(0, s.len() as int) =~= s);
    let l1 = "{\"Error\":"@;
    let st = enc_str(m);
    assert(s == l1 + st + "}"@);
    let o2 = l1.len() as int;
    let o3 = o2 + st.len() as int;
    assert(s.len() == o3 + 1);
    lemma_part_at(s, 0, s, 0, l1);
    lemma_part_at(s, 0, s, o2, st);
    assert(s[o3] == '}');
    lemma_part_at(s, 0, s, o3, seq!['}']);
    lemma_resp_prefix_distinct(s, l1);
    lemma_dec_str_enc(s, o2, m);
}

/// Round trip of a status response.
#[verifier::rlimit(100)]
#[verifier::spinoff_prover]
proof fn lemma_rt_gpustatus(locks: Seq<Option<UserModel>>)
    requires
        forall|i: int|
            0 <= i < locks.len() ==> match #[trigger] locks[i] {
                Some(u) => valid_user(u),
                None => true,
            },
    ensures
        dec_response(enc_response(ResponseModel::GPUStatus { locks })) == Some(
            ResponseModel::GPUStatus { locks },
        ),
{
    reveal_strlit("{\"GPUStatus\":{\"locks\":[");
    reveal_strlit("]}}");
    reveal_strlit("}}");
    let s = enc_response(ResponseModel::GPUStatus { locks });
    assert(s.subrange(0, s.len() as int) =~= s);
    let l1 = "{\"GPUStatus\":{\"locks\":["@;
    let items = enc_lock_items(locks);
    assert(s == l1 + items + "]}}"@);
    let o2 = l1.len() as int;
    let o3 = o2 + items.len() as int;
    assert(s.len() == o3 + 3);
    lemma_part_at(s, 0, s, 0, l1);
    lemma_part_at(s, 0, s, o2, items);
    lemma_part_at(s, 0, s, o3, "]}}"@);
    lemma_resp_prefix_distinct(s, l1);
    if locks.len() == 0 {
        assert(items.len() == 0);
        assert(lit_at(s, o2, "]}}"@));
        assert(o2 + 3 == s.len());
        assert(Seq::<Option<UserModel>>::empty() =~= locks);
    } else {
        lemma_enc_lock_items_len(locks);
        assert(!lit_at(s, o2, "]}}"@)) by {
            if lit_at(s, o2, "]}}"@) {
                assert(s.subrange(o2, o2 + 3)[0] == ']');
                assert(s[o2] == items[0]);
                lemma_enc_lock_len(locks[0]);
                let n0 = enc_lock(locks[0]);
                assert(items[0] == n0[0]) by {
                    if locks.len() > 1 {
                        assert(items == n0 + seq![','] + enc_lock_items(locks.drop_first()));
                    }
                }
                match locks[0] {
                    None => {
                        assert(n0[0] == 'n');
                    },
                    Some(u) => {
                        reveal_strlit("{\"name\":");
                        reveal_strlit(",\"uid\":");
                        reveal_strlit("}");
                        assert(n0[0] == '{');
                    },
                }
            }
        }
        assert(s[o3] == ']') by {
            assert(s[o3] == "]}}"@[0]);
        }
        lemma_dec_lock_items_enc(s, o2, locks, s.len() as nat);
        assert(lit_at(s, o3 + 1, "}}"@)) by {
            assert(s.subrange(o3 + 1, o3 + 3) =~= "}}"@) by {
                assert forall|k: int| 0 <= k < 2 implies s.subrange(o3 + 1, o3 + 3)[k]
                    == "}}"@[k] by {
                    assert(s[o3 + 1 + k] == "]}}"@[1 + k]);
                }
            }
        }
    }
}

/// Round trip of an active-jobs response.
#[verifier::rlimit(100)]
#[verifier::spinoff_prover]
proof fn lemma_rt_activejobs(v: Seq<JobDescModel>)
    requires
        forall|i: int| 0 <= i < v.len() ==> valid_desc(#[trigger] v[i]),
    ensures
        dec_response(enc_response(ResponseModel::ActiveJobs(v))) == Some(
            ResponseModel::ActiveJobs(v),
        ),
{
    reveal_strlit("{\"ActiveJobs\":[");
    reveal_strlit("]}");
    let s = enc_response(ResponseModel::ActiveJobs(v));
    assert(s.subrange(0, s.len() as int) =~= s);
    let l1 = "{\"ActiveJobs\":["@;
    let items = enc_desc_items(v);
    assert(s == l1 + items + "]}"@);
    let o2 = l1.len() as int;
    let o3 = o2 + items.len() as int;
    assert(s.len() == o3 + 2);
    lemma_part_at(s, 0, s, 0, l1);
    lemma_part_at(s, 0, s, o2, items);
    lemma_part_at(s, 0, s, o3, "]}"@);
    lemma_resp_prefix_distinct(s, l1);
    if v.len() == 0 {
        assert(items.len() == 0);
        assert(lit_at(s, o2, "]}"@));
        assert(o2 + 2 == s.len());
        assert(Seq::<JobDescModel>::empty() =~= v);
    } else {
        lemma_enc_desc_items_len(v);
        assert(!lit_at(s, o2, "]}"@)) by {
            if lit_at(s, o2, "]}"@) {
                assert(s.subrange(o2, o2 + 2)[0] == ']');
                assert(s[o2] == items[0]);
                let n0 = enc_desc(v[0]);
                assert(items[0] == n0[0]) by {
                    if v.len() > 1 {
                        assert(items == n0 + seq![','] + enc_desc_items(v.drop_first()));
                    }
                }
                reveal_strlit("{\"id\":");
                reveal_strlit(",\"owner\":");
                reveal_strlit(",\"requested_gpus\":");
                reveal_strlit("}");
                assert(n0[0] == '{');
            }
        }
        assert(s[o3] == ']') by {
            assert(s[o3] == "]}"@[0]);
        }
        lemma_dec_desc_items_enc(s, o2, v, s.len() as nat);
        assert(lit_at(s, o3 + 1, seq!['}'])) by {
            assert(s.subrange(o3 + 1, o3 + 2) =~= seq!['}']) by {
                assert(s[o3 + 1] == "]}"@[1]);
            }
        }
    }
}

/// The first character of a non-empty entry list is an opening brace.
#[verifier::spinoff_prover]
proof fn lemma_entry_items_first(v: Seq<EntryModel>)
    requires
        v.len() >= 1,
    ensures
        enc_entry_items(v).len() >= v.len(),
        enc_entry_items(v).len() >= 1,
        enc_entry_items(v)[0] == '{',
{
    lemma_enc_entry_items_len(v);
    let items = enc_entry_items(v);
    let n0 = enc_entry(v[0]);
    assert(items[0] == n0[0]) by {
        if v.len() > 1 {
            assert(items == n0 + seq![','] + enc_entry_items(v.drop_first()));
        }
    }
    reveal_strlit("{\"queue_position\":");
    reveal_strlit(",\"job\":");
    reveal_strlit("}");
    assert(n0[0] == '{');
}

/// Round trip of a my-jobs response.
#[verifier::rlimit(100)]
#[verifier::spinoff_prover]
proof fn lemma_rt_myjobs(v: Seq<EntryModel>)
    requires
        forall|i: int| 0 <= i < v.len() ==> valid_entry(#[trigger] v[i]),
    ensures
        dec_response(enc_response(ResponseModel::MyJobs(v))) == Some(ResponseModel::MyJobs(v)),
{
    reveal_strlit("{\"MyJobs\":[");
    reveal_strlit("]}");
    let s = enc_response(ResponseModel::MyJobs(v));
    assert(s.subrange(0, s.len() as int) =~= s);
    let l1 = "{\"MyJobs\":["@;
    let items = enc_entry_items(v);
    assert(s == l1 + items + "]}"@);
    let o2 = l1.len() as int;
    let o3 = o2 + items.len() as int;
    assert(s.len() == o3 + 2);
    lemma_part_at(s, 0, s, 0, l1);
    lemma_part_at(s, 0, s, o2, items);
    lemma_part_at(s, 0, s, o3, "]}"@);
    lemma_resp_prefix_distinct(s, l1);
    if v.len() == 0 {
        assert(items.len() == 0);
        assert(lit_at(s, o2, "]}"@));
        assert(o2 + 2 == s.len());
        assert(Seq::<EntryModel>::empty() =~= v);
    } else {
        lemma_entry_items_first(v);
        assert(!lit_at(s, o2, "]}"@)) by {
            if lit_at(s, o2, "]}"@) {
                assert(s.subrange(o2, o2 + 2)[0] == ']');
                assert(s[o2] == items[0]);
            }
        }
        assert(s[o3] == ']') by {
            assert(s[o3] == "]}"@[0]);
        }
        lemma_dec_entry_items_enc(s, o2, v, s.len() as nat);
        assert(lit_at(s, o3 + 1, seq!['}'])) by {
            assert(s.subrange(o3 + 1, o3 + 2) =~= seq!['}']) by {
                assert(s[o3 + 1] == "]}"@[1]);
            }
        }
    }
}

/// Protocol round trip for responses: a response written by the encoder is
/// read back unchanged by the decoder.
pub proof fn lemma_response_round_trip(r: ResponseModel)
    requires
        valid_response(r),
    ensures
        dec_response(enc_response(r)) == Some(r),
{
    match r {
        ResponseModel::Success => {},
        ResponseModel::Error(m) => {
            lemma_rt_error(m);
        },
        ResponseModel::GPUStatus { locks } => {
            lemma_rt_gpustatus(locks);
        },
        ResponseModel::ActiveJobs(v) => {
            lemma_rt_activejobs(v);
        },
        ResponseModel::MyJobs(v) => {
            lemma_rt_myjobs(v);
        },
    }
}

/// Round trip for any command value: what [`encode_command`] writes for it,
/// [`decode_command`] reads back as an equal value.
pub proof fn lemma_command_value_round_trip(c: Command)
    ensures
        dec_command(enc_command(c@)) == Some(c@),
{
    lemma_command_view_valid(c);
    lemma_command_round_trip(c@);
}

/// Round trip for any response value: what [`encode_response`] writes for
/// it, [`decode_response`] reads back as an equal value.
pub proof fn lemma_response_value_round_trip(r: Response)
    ensures
        dec_response(enc_response(r@)) == Some(r@),
{
    lemma_response_view_valid(r);
    lemma_response_round_trip(r@);
}

/// Round trip for the configuration file format: the canonical document,
/// which carries no whitespace between tokens, reads back as written.
pub proof fn lemma_config_round_trip(c: ConfigModel)
    ensures
        dec_config(enc_config(c)) == Some(c),
{
    reveal_strlit("{\"pings_api_key\":");
    reveal_strlit("\"pings_api_key\"");
    reveal_strlit("}");
    let s = enc_config(c);
    assert(s.subrange(0, s.len() as int) =~= s);
    let l1 = "{\"pings_api_key\":"@;
    let key = "\"pings_api_key\""@;
    let st = enc_str(c.pings_api_key);
    assert(s == l1 + st + "}"@);
    let o2 = l1.len() as int;
    let o3 = o2 + st.len() as int;
    assert(s.len() == o3 + 1);
    lemma_part_at(s, 0, s, 0, l1);
    lemma_part_at(s, 0, s, o2, st);
    assert(s[o3] == '}');
    lemma_part_at(s, 0, s, o3, seq!['}']);
    // token boundaries of the canonical document: never at whitespace
    assert(s[0] == '{' && !is_ws('{'));
    assert(skip_ws(s, 0) == 0);
    assert(lit_at(s, 0, seq!['{'])) by {
        assert(s.subrange(0, 1) =~= seq!['{']);
    }
    assert(s[1] == '"' && !is_ws('"'));
    assert(skip_ws(s, 1) == 1);
    assert(lit_at(s, 1, key)) by {
        assert forall|k: int| 0 <= k < key.len() implies s.subrange(1, 1 + key.len() as int)[k]
            == key[k] by {
            assert(s[1 + k] == l1[1 + k]);
        }
        assert(s.subrange(1, 1 + key.len() as int) =~= key);
    }
    assert(s[16] == ':' && !is_ws(':'));
    assert(skip_ws(s, 16) == 16);
    assert(lit_at(s, 16, seq![':'])) by {
        assert(s.subrange(16, 17) =~= seq![':']);
    }
    assert(s[o2] == '"') by {
        assert(s[o2] == st[0]);
        assert(st[0] == '"');
    }
    assert(skip_ws(s, 17) == 17);
    lemma_dec_str_enc(s, o2, c.pings_api_key);
    assert(!is_ws('}'));
    assert(skip_ws(s, o3) == o3);
    assert(skip_ws(s, o3 + 1) == s.len());
}

} // verus!

verus! {

// ---------------------------------------------------------------------------
// executable encoding
// ---------------------------------------------------------------------------
/// Relies on String::push: appends exactly the one character.
pub assume_specification[ String::push ](s: &mut String, c: char)
    ensures
        final(s)@ == old(s)@.push(c),
;

/// Appending an item to a list appends its encoding, after a comma when the
/// list was not empty.
proof fn lemma_enc_u64_items_push(a: Seq<int>, x: int)
    ensures
        enc_u64_items(a.push(x)) == if a.len() == 0 {
            enc_u64(x as u64)
        } else {
            enc_u64_items(a) + seq![','] + enc_u64(x as u64)
        },
    decreases a.len(),
{
    let b = a.push(x);
    if a.len() == 0 {
        assert(b.len() == 1 && b[0] == x);
    } else {
        assert(b.drop_first() =~= a.drop_first().push(x));
        lemma_enc_u64_items_push(a.drop_first(), x);
        assert(b[0] == a[0]);
        if a.len() == 1 {
            assert(a.drop_first().len() == 0);
        } else {
            assert(enc_u64_items(b) == enc_u64(b[0] as u64) + seq![','] + enc_u64_items(
                b.drop_first(),
            ));
            assert(enc_u64(a[0] as u64) + seq![','] + (enc_u64_items(a.drop_first()) + seq![',']
                + enc_u64(x as u64)) =~= (enc_u64(a[0] as u64) + seq![','] + enc_u64_items(
                a.drop_first(),
            )) + seq![','] + enc_u64(x as u64));
        }
    }
}

proof fn lemma_enc_lock_items_push(a: Seq<Option<UserModel>>, x: Option<UserModel>)
    ensures
        enc_lock_items(a.push(x)) == if a.len() == 0 {
            enc_lock(x)
        } else {
            enc_lock_items(a) + seq![','] + enc_lock(x)
        },
    decreases a.len(),
{
    let b = a.push(x);
    if a.len() == 0 {
        assert(b.len() == 1 && b[0] == x);
    } else {
        assert(b.drop_first() =~= a.drop_first().push(x));
        lemma_enc_lock_items_push(a.drop_first(), x);
        assert(b[0] == a[0]);
        if a.len() == 1 {
            assert(a.drop_first().len() == 0);
        } else {
            assert(enc_lock_items(b) == enc_lock(b[0]) + seq![','] + enc_lock_items(
                b.drop_first(),
            ));
            assert(enc_lock(a[0]) + seq![','] + (enc_lock_items(a.drop_first()) + seq![',']
                + enc_lock(x)) =~= (enc_lock(a[0]) + seq![','] + enc_lock_items(a.drop_first()))
                + seq![','] + enc_lock(x));
        }
    }
}

proof fn lemma_enc_desc_items_push(a: Seq<JobDescModel>, x: JobDescModel)
    ensures
        enc_desc_items(a.push(x)) == if a.len() == 0 {
            enc_desc(x)
        } else {
            enc_desc_items(a) + seq![','] + enc_desc(x)
        },
    decreases a.len(),
{
    let b = a.push(x);
    if a.len() == 0 {
        assert(b.len() == 1 && b[0] == x);
    } else {
        assert(b.drop_first() =~= a.drop_first().push(x));
        lemma_enc_desc_items_push(a.drop_first(), x);
        assert(b[0] == a[0]);
        if a.len() == 1 {
            assert(a.drop_first().len() == 0);
        } else {
            assert(enc_desc_items(b) == enc_desc(b[0]) + seq![','] + enc_desc_items(
                b.drop_first(),
            ));
            assert(enc_desc(a[0]) + seq![','] + (enc_desc_items(a.drop_first()) + seq![',']
                + enc_desc(x)) =~= (enc_desc(a[0]) + seq![','] + enc_desc_items(a.drop_first()))
                + seq![','] + enc_desc(x));
        }
    }
}

proof fn lemma_enc_entry_items_push(a: Seq<EntryModel>, x: EntryModel)
    ensures
        enc_entry_items(a.push(x)) == if a.len() == 0 {
            enc_entry(x)
        } else {
            enc_entry_items(a) + seq![','] + enc_entry(x)
        },
    decreases a.len(),
{
    let b = a.push(x);
    if a.len() == 0 {
        assert(b.len() == 1 && b[0] == x);
    } else {
        assert(b.drop_first() =~= a.drop_first().push(x));
        lemma_enc_entry_items_push(a.drop_first(), x);
        assert(b[0] == a[0]);
        if a.len() == 1 {
            assert(a.drop_first().len() == 0);
        } else {
            assert(enc_entry_items(b) == enc_entry(b[0]) + seq![','] + enc_entry_items(
                b.drop_first(),
            ));
            assert(enc_entry(a[0]) + seq![','] + (enc_entry_items(a.drop_first()) + seq![',']
                + enc_entry(x)) =~= (enc_entry(a[0]) + seq![','] + enc_entry_items(a.drop_first()))
                + seq![','] + enc_entry(x));
        }
    }
}

/// Escaping distributes over appending one character.
proof fn lemma_esc_push(a: Seq<char>, c: char)
    ensures
        esc(a.push(c)) == esc(a) + esc_char(c),
    decreases a.len(),
{
    let b = a.push(c);
    if a.len() == 0 {
        assert(b.len() == 1 && b[0] == c);
        assert(b.drop_first() =~= Seq::<char>::empty());
        assert(esc(Seq::<char>::empty()) == Seq::<char>::empty());
        assert(esc(b) == esc_char(b[0]) + esc(b.drop_first()));
        assert(esc(b) == esc_char(c) + Seq::<char>::empty());
        assert(esc_char(c) + Seq::<char>::empty() =~= Seq::<char>::empty() + esc_char(c));
    } else {
        assert(b.drop_first() =~= a.drop_first().push(c));
        lemma_esc_push(a.drop_first(), c);
        assert(b[0] == a[0]);
        assert(esc_char(a[0]) + (esc(a.drop_first()) + esc_char(c)) =~= (esc_char(a[0]) + esc(
            a.drop_first(),
        )) + esc_char(c));
    }
}

/// Write the decimal spelling of `n` onto `out`.
pub(crate) fn encode_u64(n: u64, out: &mut String)
    ensures
        final(out)@ == old(out)@ + enc_u64(n),
    decreases n,
{
    if n < 10 {
        out.push((48 + n as u8) as char);
        proof {
            assert((48 + n as u8) as char == digit_char(n as int));
            assert(old(out)@.push(digit_char(n as int)) =~= old(out)@ + enc_u64(n));
        }
    } else {
        encode_u64(n / 10, out);
        out.push((48 + (n % 10) as u8) as char);
        proof {
            assert((48 + (n % 10) as u8) as char == digit_char((n % 10) as int));
            assert((old(out)@ + enc_u64(n / 10)).push(digit_char((n % 10) as int)) =~= old(out)@
                + enc_u64(n));
        }
    }
}

/// Write `t` as a JSON string onto `out`, quotes and escapes included.
pub(crate) fn encode_json_str(t: &str, out: &mut String)
    ensures
        final(out)@ == old(out)@ + enc_str(t@),
{
    let n = t.unicode_len();
    out.push('"');
    let mut i: usize = 0;
    while i < n
        invariant
            n == t@.len(),
            i <= n,
            out@ == old(out)@ + seq!['"'] + esc(t@.subrange(0, i as int)),
        decreases n - i,
    {
        let c = t.get_char(i);
        if c == '"' || c == '\\' {
            out.push('\\');
            out.push(c);
        } else if c == '\n' {
            out.push('\\');
            out.push('n');
        } else if c == '\t' {
            out.push('\\');
            out.push('t');
        } else if c == '\r' {
            out.push('\\');
            out.push('r');
        } else if (c as u32) < 32 {
            let v = c as u32;
            out.push('\\');
            out.push('u');
            out.push('0');
            out.push('0');
            let hi = (v / 16) as u8;
            let lo = (v % 16) as u8;
            out.push((48 + hi) as char);
            out.push(
                if lo < 10 {
                    (48 + lo) as char
                } else {
                    (87 + lo) as char
                },
            );
            proof {
                assert((48 + hi) as char == hex_char(((c as u32) / 16) as int));
                assert((if lo < 10 {
                    (48 + lo) as char
                } else {
                    (87 + lo) as char
                }) == hex_char(((c as u32) % 16) as int));
            }
        } else {
            out.push(c);
        }
        proof {
            let pre = t@.subrange(0, i as int);
            assert(t@.subrange(0, i as int + 1) =~= pre.push(t@[i as int]));
            lemma_esc_push(pre, t@[i as int]);
            if c == '"' || c == '\\' {
                assert((old(out)@ + seq!['"'] + esc(pre)).push('\\').push(c) =~= old(out)@
                    + seq!['"'] + (esc(pre) + esc_char(c)));
            } else if c == '\n' || c == '\t' || c == '\r' {
                assert(out@ =~= old(out)@ + seq!['"'] + (esc(pre) + esc_char(c)));
            } else if (c as u32) < 32 {
                assert(out@ =~= old(out)@ + seq!['"'] + (esc(pre) + esc_char(c)));
            } else {
                assert((old(out)@ + seq!['"'] + esc(pre)).push(c) =~= old(out)@ + seq!['"'] + (esc(
                    pre,
                ) + esc_char(c)));
            }
        }
        i = i + 1;
    }
    out.push('"');
    proof {
        assert(t@.subrange(0, t@.len() as int) =~= t@);
        assert((old(out)@ + seq!['"'] + esc(t@)).push('"') =~= old(out)@ + enc_str(t@));
    }
}

/// Write a user record onto `out`.
fn encode_user(u: &User, out: &mut String)
    ensures
        final(out)@ == old(out)@ + enc_user(u@),
{
    out.append("{\"name\":");
    encode_json_str(u.name.as_str(), out);
    out.append(",\"uid\":");
    encode_u64(u.uid as u64, out);
    out.append("}");
    proof {
        assert(old(out)@ + "{\"name\":"@ + enc_str(u.name@) + ",\"uid\":"@ + enc_u64(
            u.uid as u64,
        ) + "}"@ =~= old(out)@ + enc_user(u@));
    }
}

/// Write a device list onto `out`, brackets included.
fn encode_gpus(v: &Vec<u32>, out: &mut String)
    ensures
        final(out)@ == old(out)@ + enc_u64_list(gpus_view(v@)),
{
    let ghost m = gpus_view(v@);
    out.push('[');
    let mut i: usize = 0;
    while i < v.len()
        invariant
            m == gpus_view(v@),
            i <= v@.len(),
            out@ == old(out)@.push('[') + enc_u64_items(m.subrange(0, i as int)),
        decreases v@.len() - i,
    {
        if i > 0 {
            out.push(',');
        }
        encode_u64(v[i] as u64, out);
        proof {
            let pre = m.subrange(0, i as int);
            assert(m.subrange(0, i as int + 1) =~= pre.push(m[i as int]));
            lemma_enc_u64_items_push(pre, m[i as int]);
            assert(m[i as int] == v@[i as int] as int);
            assert((m[i as int]) as u64 == v@[i as int] as u64);
            if i == 0 {
                assert(out@ =~= old(out)@.push('[') + enc_u64_items(m.subrange(0, i as int + 1)));
            } else {
                assert(out@ =~= old(out)@.push('[') + enc_u64_items(m.subrange(0, i as int + 1)));
            }
        }
        i = i + 1;
    }
    out.push(']');
    proof {
        assert(m.subrange(0, m.len() as int) =~= m);
        assert(out@ =~= old(out)@ + enc_u64_list(m));
    }
}

/// Write one active-job description onto `out`.
fn encode_desc(d: &JobDesc, out: &mut String)
    ensures
        final(out)@ == old(out)@ + enc_desc(d@),
{
    out.append("{\"id\":");
    encode_u64(d.id as u64, out);
    out.append(",\"owner\":");
    encode_user(&d.owner, out);
    out.append(",\"requested_gpus\":");
    encode_gpus(&d.requested_gpus, out);
    out.append("}");
    proof {
        assert(old(out)@ + "{\"id\":"@ + enc_u64(d.id as u64) + ",\"owner\":"@ + enc_user(
            d.owner@,
        ) + ",\"requested_gpus\":"@ + enc_u64_list(gpus_view(d.requested_gpus@))
            + "}"@ =~= old(out)@ + enc_desc(d@));
    }
}

/// Write one queued-job entry onto `out`.
fn encode_entry(e: &QueuedJobDesc, out: &mut String)
    ensures
        final(out)@ == old(out)@ + enc_entry(e@),
{
    out.append("{\"queue_position\":");
    encode_u64(e.queue_position as u64, out);
    out.append(",\"job\":");
    encode_desc(&e.job, out);
    out.append("}");
    proof {
        assert(old(out)@ + "{\"queue_position\":"@ + enc_u64(e.queue_position as u64) + ",\"job\":"@
            + enc_desc(e.job@) + "}"@ =~= old(out)@ + enc_entry(e@));
    }
}

/// Write one device lock onto `out`: `null` or the owning user.
fn encode_lock(o: &Option<User>, out: &mut String)
    ensures
        final(out)@ == old(out)@ + enc_lock(lock_view(*o)),
{
    match o {
        Some(u) => {
            encode_user(u, out);
        },
        None => {
            out.append("null");
            proof {
                reveal_strlit("null");
                assert("null"@ =~= seq!['n', 'u', 'l', 'l']);
            }
        },
    }
}

/// Encode one command as its wire document.
pub fn encode_command(c: &Command) -> (r: String)
    ensures
        r@ == enc_command(c@),
{
    let mut out = String::new();
    match c {
        Command::Status => {
            out.append("\"Status\"");
        },
        Command::Kill => {
            out.append("\"Kill\"");
        },
        Command::ActiveJobs => {
            out.append("\"ActiveJobs\"");
        },
        Command::SetWatch { device_number, watching } => {
            out.append("{\"SetWatch\":{\"device_number\":");
            encode_u64(*device_number as u64, &mut out);
            out.append(",\"watching\":");
            if *watching {
                out.append("true");
            } else {
                out.append("false");
            }
            out.append("}}");
            proof {
                if *watching {
                    reveal_strlit("true");
                    assert("true"@ =~= enc_bool(true));
                } else {
                    reveal_strlit("false");
                    assert("false"@ =~= enc_bool(false));
                }
                assert(out@ =~= enc_command(c@));
            }
        },
        Command::QueueJob { user, image_id, gpus } => {
            out.append("{\"QueueJob\":{\"user\":");
            encode_user(user, &mut out);
            out.append(",\"image_id\":");
            encode_json_str(image_id.as_str(), &mut out);
            out.append(",\"gpus\":");
            encode_gpus(gpus, &mut out);
            out.append("}}");
            proof {
                assert(out@ =~= enc_command(c@));
            }
        },
        Command::MyJobs { uid } => {
            out.append("{\"MyJobs\":{\"uid\":");
            encode_u64(*uid as u64, &mut out);
            out.append("}}");
            proof {
                assert(out@ =~= enc_command(c@));
            }
        },
    }
    out
}

/// Encode one response as its wire document.
pub fn encode_response(r: &Response) -> (out: String)
    ensures
        out@ == enc_response(r@),
{
    let mut out = String::new();
    match r {
        Response::Success => {
            out.append("\"Success\"");
        },
        Response::Error(m) => {
            out.append("{\"Error\":");
            encode_json_str(m.as_str(), &mut out);
            out.append("}");
            proof {
                assert(out@ =~= enc_response(r@));
            }
        },
        Response::GPUStatus { locks } => {
            let ghost m = locks_view(locks@);
            out.append("{\"GPUStatus\":{\"locks\":[");
            let mut i: usize = 0;
            while i < locks.len()
                invariant
                    m == locks_view(locks@),
                    i <= locks@.len(),
                    out@ == "{\"GPUStatus\":{\"locks\":["@ + enc_lock_items(
                        m.subrange(0, i as int),
                    ),
                decreases locks@.len() - i,
            {
                if i > 0 {
                    out.push(',');
                }
                encode_lock(&locks[i], &mut out);
                proof {
                    let pre = m.subrange(0, i as int);
                    assert(m.subrange(0, i as int + 1) =~= pre.push(m[i as int]));
                    lemma_enc_lock_items_push(pre, m[i as int]);
                    assert(m[i as int] == lock_view(locks@[i as int]));
                    assert(out@ =~= "{\"GPUStatus\":{\"locks\":["@ + enc_lock_items(
                        m.subrange(0, i as int + 1),
                    ));
                }
                i = i + 1;
            }
            out.append("]}}");
            proof {
                assert(m.subrange(0, m.len() as int) =~= m);
                assert(out@ =~= enc_response(r@));
            }
        },
        Response::ActiveJobs(v) => {
            let ghost m = descs_view(v@);
            out.append("{\"ActiveJobs\":[");
            let mut i: usize = 0;
            while i < v.len()
                invariant
                    m == descs_view(v@),
                    i <= v@.len(),
                    out@ == "{\"ActiveJobs\":["@ + enc_desc_items(m.subrange(0, i as int)),
                decreases v@.len() - i,
            {
                if i > 0 {
                    out.push(',');
                }
                encode_desc(&v[i], &mut out);
                proof {
                    let pre = m.subrange(0, i as int);
                    assert(m.subrange(0, i as int + 1) =~= pre.push(m[i as int]));
                    lemma_enc_desc_items_push(pre, m[i as int]);
                    assert(m[i as int] == v@[i as int]@);
                    assert(out@ =~= "{\"ActiveJobs\":["@ + enc_desc_items(
                        m.subrange(0, i as int + 1),
                    ));
                }
                i = i + 1;
            }
            out.append("]}");
            proof {
                assert(m.subrange(0, m.len() as int) =~= m);
                assert(out@ =~= enc_response(r@));
            }
        },
        Response::MyJobs(v) => {
            let ghost m = entries_view(v@);
            out.append("{\"MyJobs\":[");
            let mut i: usize = 0;
            while i < v.len()
                invariant
                    m == entries_view(v@),
                    i <= v@.len(),
                    out@ == "{\"MyJobs\":["@ + enc_entry_items(m.subrange(0, i as int)),
                decreases v@.len() - i,
            {
                if i > 0 {
                    out.push(',');
                }
                encode_entry(&v[i], &mut out);
                proof {
                    let pre = m.subrange(0, i as int);
                    assert(m.subrange(0, i as int + 1) =~= pre.push(m[i as int]));
                    lemma_enc_entry_items_push(pre, m[i as int]);
                    assert(m[i as int] == v@[i as int]@);
                    assert(out@ =~= "{\"MyJobs\":["@ + enc_entry_items(
                        m.subrange(0, i as int + 1),
                    ));
                }
                i = i + 1;
            }
            out.append("]}");
            proof {
                assert(m.subrange(0, m.len() as int) =~= m);
                assert(out@ =~= enc_response(r@));
            }
        },
    }
    out
}

} // verus!

verus! {

// ---------------------------------------------------------------------------
// executable decoding
// ---------------------------------------------------------------------------
/// `pow10` grows with its exponent.
proof fn lemma_pow10_le(a: nat, b: nat)
    requires
        a <= b,
    ensures
        pow10(a) <= pow10(b),
        pow10(a) >= 1,
    decreases b,
{
    if a < b {
        lemma_pow10_le(a, (b - 1) as nat);
    } else if b > 0 {
        lemma_pow10_le((a - 1) as nat, (b - 1) as nat);
    }
}

/// Does `lit` stand at position `i` of `s`? On a match, the position after.
fn match_lit(s: &str, i: usize, lit: &str) -> (r: Option<usize>)
    requires
        i <= s@.len(),
    ensures
        match r {
            Some(j) => lit_at(s@, i as int, lit@) && j as int == i + lit@.len() && j <= s@.len(),
            None => !lit_at(s@, i as int, lit@),
        },
{
    let n = s.unicode_len();
    let m = lit.unicode_len();
    if m > n - i {
        return None;
    }
    let mut k: usize = 0;
    while k < m
        invariant
            n == s@.len(),
            m == lit@.len(),
            i + m <= n,
            k <= m,
            forall|t: int| 0 <= t < k as int ==> s@[i + t] == lit@[t],
        decreases m - k,
    {
        if s.get_char(i + k) != lit.get_char(k) {
            proof {
                if lit_at(s@, i as int, lit@) {
                    assert(s@.subrange(i as int, i + m as int)[k as int] == lit@[k as int]);
                }
            }
            return None;
        }
        k = k + 1;
    }
    proof {
        assert(s@.subrange(i as int, i + m as int) =~= lit@);
    }
    Some(i + m)
}

/// Read an unsigned decimal number at `i`.
fn decode_u64(s: &str, i: usize) -> (r: Option<(u64, usize)>)
    requires
        i <= s@.len(),
    ensures
        match r {
            Some(p) => dec_u64_at(s@, i as int) == Some((p.0, p.1 as int)) && i < p.1 <= s@.len(),
            None => dec_u64_at(s@, i as int) is None,
        },
{
    let n = s.unicode_len();
    let mut j: usize = i;
    let mut stop = false;
    while j < n && !stop
        invariant
            n == s@.len(),
            i <= j <= n,
            forall|t: int| i as int <= t < j as int ==> is_digit(#[trigger] s@[t]),
            stop ==> j < n && !is_digit(s@[j as int]),
        decreases n - j + (if stop { 0int } else { 1int }),
    {
        let c = s.get_char(j);
        if 48 <= (c as u32) && (c as u32) <= 57 {
            j = j + 1;
        } else {
            stop = true;
        }
    }
    proof {
        lemma_digits_end_run(s@, i as int, j as int);
    }
    if j == i {
        return None;
    }
    if j - i > 20 {
        return None;
    }
    let mut acc: u128 = 0;
    let mut k: usize = i;
    while k < j
        invariant
            n == s@.len(),
            i <= k <= j <= n,
            j - i <= 20,
            forall|t: int| i as int <= t < j as int ==> is_digit(#[trigger] s@[t]),
            acc as int == digits_val(s@, i as int, k as int),
            acc as int >= 0,
        decreases j - k,
    {
        proof {
            lemma_digits_val_bounds(s@, i as int, k as int);
            lemma_pow10_le((k - i) as nat, 20);
            assert(pow10(21) <= u128::MAX as int) by {
                reveal_with_fuel(pow10, 22);
            }
            assert(pow10(21) == 10 * pow10(20));
            assert(acc as int * 10 + 9 < pow10(21));
        }
        let c = s.get_char(k);
        let d = (c as u32) - 48;
        acc = acc * 10 + (d as u128);
        k = k + 1;
    }
    if acc > (u64::MAX as u128) {
        return None;
    }
    Some((acc as u64, j))
}

/// Read a JSON string at `i`, undoing the escapes.
fn decode_json_str(s: &str, i: usize) -> (r: Option<(String, usize)>)
    requires
        i <= s@.len(),
    ensures
        match r {
            Some(p) => dec_str_at(s@, i as int) == Some((p.0@, p.1 as int)) && p.1 <= s@.len(),
            None => dec_str_at(s@, i as int) is None,
        },
{
    let n = s.unicode_len();
    if i >= n {
        return None;
    }
    if s.get_char(i) != '"' {
        return None;
    }
    let mut out = String::new();
    let mut p: usize = i + 1;
    loop
        invariant
            n == s@.len(),
            i + 1 <= p <= n,
            s@[i as int] == '"',
            match dec_str_body(s@, p as int) {
                Some(q) => dec_str_body(s@, i as int + 1) == Some((out@ + q.0, q.1)),
                None => dec_str_body(s@, i as int + 1) is None,
            },
        decreases n - p,
    {
        if p >= n {
            return None;
        }
        let c = s.get_char(p);
        if c == '"' {
            proof {
                assert(out@ + Seq::<char>::empty() =~= out@);
            }
            return Some((out, p + 1));
        }
        if c == '\\' {
            if p + 1 >= n {
                return None;
            }
            let c2 = s.get_char(p + 1);
            if c2 == '"' || c2 == '\\' {
                proof {
                    match dec_str_body(s@, p as int + 2) {
                        Some(q) => {
                            assert(dec_str_body(s@, p as int) == Some(
                                (seq![s@[p as int + 1]] + q.0, q.1),
                            ));
                            assert(out@ + (seq![s@[p as int + 1]] + q.0) =~= out@.push(
                                s@[p as int + 1],
                            ) + q.0);
                        },
                        None => {},
                    }
                }
                out.push(c2);
                p = p + 2;
            } else if c2 == 'n' || c2 == 't' || c2 == 'r' || c2 == 'b' || c2 == 'f' {
                let ch = if c2 == 'n' {
                    '\n'
                } else if c2 == 't' {
                    '\t'
                } else if c2 == 'r' {
                    '\r'
                } else if c2 == 'b' {
                    (8 as u8) as char
                } else {
                    (12 as u8) as char
                };
                proof {
                    match dec_str_body(s@, p as int + 2) {
                        Some(q) => {
                            assert(dec_str_body(s@, p as int) == Some((seq![ch] + q.0, q.1)));
                            assert(out@ + (seq![ch] + q.0) =~= out@.push(ch) + q.0);
                        },
                        None => {},
                    }
                }
                out.push(ch);
                p = p + 2;
            } else if c2 == 'u' {
                if n - p <= 5 {
                    return None;
                }
                let c3 = s.get_char(p + 2);
                let c4 = s.get_char(p + 3);
                let h1 = s.get_char(p + 4);
                let h2 = s.get_char(p + 5);
                let h1v = h1 as u32;
                let h2v = h2 as u32;
                let h1_ok = (48 <= h1v && h1v <= 57) || (97 <= h1v && h1v <= 102);
                let h2_ok = (48 <= h2v && h2v <= 57) || (97 <= h2v && h2v <= 102);
                if c3 == '0' && c4 == '0' && h1_ok && h2_ok {
                    let d1 = if h1v <= 57 {
                        h1v - 48
                    } else {
                        h1v - 87
                    };
                    let d2 = if h2v <= 57 {
                        h2v - 48
                    } else {
                        h2v - 87
                    };
                    let ch = ((d1 * 16 + d2) as u8) as char;
                    proof {
                        assert(is_hex_lower(s@[p as int + 4]) && is_hex_lower(s@[p as int + 5]));
                        assert(d1 as int == hex_val(s@[p as int + 4]));
                        assert(d2 as int == hex_val(s@[p as int + 5]));
                        assert(ch == ((hex_val(s@[p as int + 4]) * 16 + hex_val(
                            s@[p as int + 5],
                        )) as u8) as char);
                        match dec_str_body(s@, p as int + 6) {
                            Some(q) => {
                                assert(dec_str_body(s@, p as int) == Some(
                                    (seq![ch] + q.0, q.1),
                                ));
                                assert(out@ + (seq![ch] + q.0) =~= out@.push(ch) + q.0);
                            },
                            None => {},
                        }
                    }
                    out.push(ch);
                    p = p + 6;
                } else {
                    return None;
                }
            } else {
                return None;
            }
        } else {
            proof {
                match dec_str_body(s@, p as int + 1) {
                    Some(q) => {
                        assert(dec_str_body(s@, p as int) == Some(
                            (seq![s@[p as int]] + q.0, q.1),
                        ));
                        assert(out@ + (seq![s@[p as int]] + q.0) =~= out@.push(s@[p as int])
                            + q.0);
                    },
                    None => {},
                }
            }
            out.push(c);
            p = p + 1;
        }
    }
}

} // verus!

verus! {

/// Read `true` or `false` at `i`.
fn decode_bool(s: &str, i: usize) -> (r: Option<(bool, usize)>)
    requires
        i <= s@.len(),
    ensures
        match r {
            Some(p) => dec_bool_at(s@, i as int) == Some((p.0, p.1 as int)) && p.1 <= s@.len(),
            None => dec_bool_at(s@, i as int) is None,
        },
{
    proof {
        reveal_strlit("true");
        reveal_strlit("false");
        assert("true"@ =~= enc_bool(true));
        assert("false"@ =~= enc_bool(false));
    }
    match match_lit(s, i, "true") {
        Some(j) => Some((true, j)),
        None => match match_lit(s, i, "false") {
            Some(j) => Some((false, j)),
            None => None,
        },
    }
}

/// Read a user record at `i`.
fn decode_user(s: &str, i: usize) -> (r: Option<(User, usize)>)
    requires
        i <= s@.len(),
    ensures
        match r {
            Some(p) => dec_user_at(s@, i as int) == Some((p.0@, p.1 as int)) && p.1 <= s@.len(),
            None => dec_user_at(s@, i as int) is None,
        },
{
    proof {
        reveal_strlit("}");
        assert("}"@ =~= seq!['}']);
    }
    let j0 = match match_lit(s, i, "{\"name\":") {
        Some(j) => j,
        None => {
            return None;
        },
    };
    let (name, j1) = match decode_json_str(s, j0) {
        Some(p) => p,
        None => {
            return None;
        },
    };
    let j2 = match match_lit(s, j1, ",\"uid\":") {
        Some(j) => j,
        None => {
            return None;
        },
    };
    let (uid64, j3) = match decode_u64(s, j2) {
        Some(p) => p,
        None => {
            return None;
        },
    };
    if uid64 > (usize::MAX as u64) {
        return None;
    }
    let j4 = match match_lit(s, j3, "}") {
        Some(j) => j,
        None => {
            return None;
        },
    };
    Some((User { name, uid: uid64 as usize }, j4))
}

/// Read the items of a non-empty device list, closing bracket included.
fn decode_u32_items(s: &str, i: usize, fuel: usize) -> (r: Option<(Vec<u32>, usize)>)
    requires
        i <= s@.len(),
    ensures
        match r {
            Some(p) => dec_u32_items(s@, i as int, fuel as nat) == Some(
                (gpus_view(p.0@), p.1 as int),
            ) && p.1 <= s@.len(),
            None => dec_u32_items(s@, i as int, fuel as nat) is None,
        },
    decreases fuel,
{
    proof {
        reveal_strlit(",");
        reveal_strlit("]");
        assert(","@ =~= seq![',']);
        assert("]"@ =~= seq![']']);
    }
    if fuel == 0 {
        return None;
    }
    let (v64, j) = match decode_u64(s, i) {
        Some(p) => p,
        None => {
            return None;
        },
    };
    if v64 > (u32::MAX as u64) {
        return None;
    }
    match match_lit(s, j, ",") {
        Some(j2) => {
            let (mut rest, k) = match decode_u32_items(s, j2, fuel - 1) {
                Some(p) => p,
                None => {
                    return None;
                },
            };
            let ghost r0 = rest@;
            rest.insert(0, v64 as u32);
            proof {
                assert(rest@ =~= seq![v64 as u32] + r0);
                assert(gpus_view(rest@) =~= seq![v64 as int] + gpus_view(r0));
            }
            Some((rest, k))
        },
        None => match match_lit(s, j, "]") {
            Some(j2) => {
                let mut v: Vec<u32> = Vec::new();
                v.push(v64 as u32);
                proof {
                    assert(gpus_view(v@) =~= seq![v64 as int]);
                }
                Some((v, j2))
            },
            None => None,
        },
    }
}

} // verus!

verus! {

/// Read a whole device list at `i`, brackets included.
fn decode_u32_list(s: &str, i: usize) -> (r: Option<(Vec<u32>, usize)>)
    requires
        i <= s@.len(),
    ensures
        match r {
            Some(p) => dec_u32_list_at(s@, i as int) == Some((gpus_view(p.0@), p.1 as int))
                && p.1 <= s@.len(),
            None => dec_u32_list_at(s@, i as int) is None,
        },
{
    proof {
        reveal_strlit("[");
        reveal_strlit("]");
        assert("["@ =~= seq!['[']);
        assert("]"@ =~= seq![']']);
    }
    let j0 = match match_lit(s, i, "[") {
        Some(j) => j,
        None => {
            return None;
        },
    };
    match match_lit(s, j0, "]") {
        Some(j1) => {
            let v: Vec<u32> = Vec::new();
            proof {
                assert(gpus_view(v@) =~= Seq::<int>::empty());
            }
            Some((v, j1))
        },
        None => {
            let n = s.unicode_len();
            decode_u32_items(s, j0, n)
        },
    }
}

/// Read one active-job description at `i`.
fn decode_desc(s: &str, i: usize) -> (r: Option<(JobDesc, usize)>)
    requires
        i <= s@.len(),
    ensures
        match r {
            Some(p) => dec_desc_at(s@, i as int) == Some((p.0@, p.1 as int)) && p.1 <= s@.len(),
            None => dec_desc_at(s@, i as int) is None,
        },
{
    proof {
        reveal_strlit("}");
        assert("}"@ =~= seq!['}']);
    }
    let j0 = match match_lit(s, i, "{\"id\":") {
        Some(j) => j,
        None => {
            return None;
        },
    };
    let (id64, j1) = match decode_u64(s, j0) {
        Some(p) => p,
        None => {
            return None;
        },
    };
    if id64 > (u16::MAX as u64) {
        return None;
    }
    let j2 = match match_lit(s, j1, ",\"owner\":") {
        Some(j) => j,
        None => {
            return None;
        },
    };
    let (owner, j3) = match decode_user(s, j2) {
        Some(p) => p,
        None => {
            return None;
        },
    };
    let j4 = match match_lit(s, j3, ",\"requested_gpus\":") {
        Some(j) => j,
        None => {
            return None;
        },
    };
    let (gpus, j5) = match decode_u32_list(s, j4) {
        Some(p) => p,
        None => {
            return None;
        },
    };
    let j6 = match match_lit(s, j5, "}") {
        Some(j) => j,
        None => {
            return None;
        },
    };
    Some((JobDesc { id: id64 as u16, owner, requested_gpus: gpus }, j6))
}

/// Read one queued-job entry at `i`.
fn decode_entry(s: &str, i: usize) -> (r: Option<(QueuedJobDesc, usize)>)
    requires
        i <= s@.len(),
    ensures
        match r {
            Some(p) => dec_entry_at(s@, i as int) == Some((p.0@, p.1 as int)) && p.1 <= s@.len(),
            None => dec_entry_at(s@, i as int) is None,
        },
{
    proof {
        reveal_strlit("}");
        assert("}"@ =~= seq!['}']);
    }
    let j0 = match match_lit(s, i, "{\"queue_position\":") {
        Some(j) => j,
        None => {
            return None;
        },
    };
    let (pos64, j1) = match decode_u64(s, j0) {
        Some(p) => p,
        None => {
            return None;
        },
    };
    if pos64 > (usize::MAX as u64) {
        return None;
    }
    let j2 = match match_lit(s, j1, ",\"job\":") {
        Some(j) => j,
        None => {
            return None;
        },
    };
    let (job, j3) = match decode_desc(s, j2) {
        Some(p) => p,
        None => {
            return None;
        },
    };
    let j4 = match match_lit(s, j3, "}") {
        Some(j) => j,
        None => {
            return None;
        },
    };
    Some((QueuedJobDesc { queue_position: pos64 as usize, job }, j4))
}

/// Read one device lock at `i`: `null` or a user record.
fn decode_lock(s: &str, i: usize) -> (r: Option<(Option<User>, usize)>)
    requires
        i <= s@.len(),
    ensures
        match r {
            Some(p) => dec_lock_at(s@, i as int) == Some((lock_view(p.0), p.1 as int)) && p.1
                <= s@.len(),
            None => dec_lock_at(s@, i as int) is None,
        },
{
    proof {
        reveal_strlit("null");
        assert("null"@ =~= seq!['n', 'u', 'l', 'l']);
    }
    match match_lit(s, i, "null") {
        Some(j) => Some((None, j)),
        None => match decode_user(s, i) {
            Some((u, j)) => Some((Some(u), j)),
            None => None,
        },
    }
}

/// Read the items of a non-empty lock list, closing bracket included.
fn decode_lock_items(s: &str, i: usize, fuel: usize) -> (r: Option<(Vec<Option<User>>, usize)>)
    requires
        i <= s@.len(),
    ensures
        match r {
            Some(p) => dec_lock_items(s@, i as int, fuel as nat) == Some(
                (locks_view(p.0@), p.1 as int),
            ) && p.1 <= s@.len(),
            None => dec_lock_items(s@, i as int, fuel as nat) is None,
        },
    decreases fuel,
{
    proof {
        reveal_strlit(",");
        reveal_strlit("]");
        assert(","@ =~= seq![',']);
        assert("]"@ =~= seq![']']);
    }
    if fuel == 0 {
        return None;
    }
    let (v, j) = match decode_lock(s, i) {
        Some(p) => p,
        None => {
            return None;
        },
    };
    match match_lit(s, j, ",") {
        Some(j2) => {
            let (mut rest, k) = match decode_lock_items(s, j2, fuel - 1) {
                Some(p) => p,
                None => {
                    return None;
                },
            };
            let ghost r0 = rest@;
            let ghost vm = lock_view(v);
            rest.insert(0, v);
            proof {
                assert(rest@ =~= seq![rest@[0]] + r0);
                assert(locks_view(rest@) =~= seq![vm] + locks_view(r0));
            }
            Some((rest, k))
        },
        None => match match_lit(s, j, "]") {
            Some(j2) => {
                let ghost vm = lock_view(v);
                let mut out: Vec<Option<User>> = Vec::new();
                out.push(v);
                proof {
                    assert(locks_view(out@) =~= seq![vm]);
                }
                Some((out, j2))
            },
            None => None,
        },
    }
}

/// Read the items of a non-empty description list, closing bracket included.
fn decode_desc_items(s: &str, i: usize, fuel: usize) -> (r: Option<(Vec<JobDesc>, usize)>)
    requires
        i <= s@.len(),
    ensures
        match r {
            Some(p) => dec_desc_items(s@, i as int, fuel as nat) == Some(
                (descs_view(p.0@), p.1 as int),
            ) && p.1 <= s@.len(),
            None => dec_desc_items(s@, i as int, fuel as nat) is None,
        },
    decreases fuel,
{
    proof {
        reveal_strlit(",");
        reveal_strlit("]");
        assert(","@ =~= seq![',']);
        assert("]"@ =~= seq![']']);
    }
    if fuel == 0 {
        return None;
    }
    let (v, j) = match decode_desc(s, i) {
        Some(p) => p,
        None => {
            return None;
        },
    };
    match match_lit(s, j, ",") {
        Some(j2) => {
            let (mut rest, k) = match decode_desc_items(s, j2, fuel - 1) {
                Some(p) => p,
                None => {
                    return None;
                },
            };
            let ghost r0 = rest@;
            let ghost vm = v@;
            rest.insert(0, v);
            proof {
                assert(rest@ =~= seq![rest@[0]] + r0);
                assert(descs_view(rest@) =~= seq![vm] + descs_view(r0));
            }
            Some((rest, k))
        },
        None => match match_lit(s, j, "]") {
            Some(j2) => {
                let ghost vm = v@;
                let mut out: Vec<JobDesc> = Vec::new();
                out.push(v);
                proof {
                    assert(descs_view(out@) =~= seq![vm]);
                }
                Some((out, j2))
            },
            None => None,
        },
    }
}

/// Read the items of a non-empty entry list, closing bracket included.
fn decode_entry_items(s: &str, i: usize, fuel: usize) -> (r: Option<(Vec<QueuedJobDesc>, usize)>)
    requires
        i <= s@.len(),
    ensures
        match r {
            Some(p) => dec_entry_items(s@, i as int, fuel as nat) == Some(
                (entries_view(p.0@), p.1 as int),
            ) && p.1 <= s@.len(),
            None => dec_entry_items(s@, i as int, fuel as nat) is None,
        },
    decreases fuel,
{
    proof {
        reveal_strlit(",");
        reveal_strlit("]");
        assert(","@ =~= seq![',']);
        assert("]"@ =~= seq![']']);
    }
    if fuel == 0 {
        return None;
    }
    let (v, j) = match decode_entry(s, i) {
        Some(p) => p,
        None => {
            return None;
        },
    };
    match match_lit(s, j, ",") {
        Some(j2) => {
            let (mut rest, k) = match decode_entry_items(s, j2, fuel - 1) {
                Some(p) => p,
                None => {
                    return None;
                },
            };
            let ghost r0 = rest@;
            let ghost vm = v@;
            rest.insert(0, v);
            proof {
                assert(rest@ =~= seq![rest@[0]] + r0);
                assert(entries_view(rest@) =~= seq![vm] + entries_view(r0));
            }
            Some((rest, k))
        },
        None => match match_lit(s, j, "]") {
            Some(j2) => {
                let ghost vm = v@;
                let mut out: Vec<QueuedJobDesc> = Vec::new();
                out.push(v);
                proof {
                    assert(entries_view(out@) =~= seq![vm]);
                }
                Some((out, j2))
            },
            None => None,
        },
    }
}

} // verus!

verus! {

/// Read one whole command document, or nothing for anything malformed.
pub fn decode_command(s: &str) -> (r: Option<Command>)
    ensures
        match r {
            Some(c) => dec_command(s@) == Some(c@),
            None => dec_command(s@) is None,
        },
{
    let n = s.unicode_len();
    proof {
        assert(s@.subrange(0, n as int) =~= s@);
    }
    if let Some(j) = match_lit(s, 0, "\"Status\"") {
        if j == n {
            return Some(Command::Status);
        }
    }
    proof {
        if s@ == "\"Status\""@ {
            assert(lit_at(s@, 0, "\"Status\""@));
            assert(false);
        }
    }
    if let Some(j) = match_lit(s, 0, "\"Kill\"") {
        if j == n {
            return Some(Command::Kill);
        }
    }
    proof {
        if s@ == "\"Kill\""@ {
            assert(lit_at(s@, 0, "\"Kill\""@));
            assert(false);
        }
    }
    if let Some(j) = match_lit(s, 0, "\"ActiveJobs\"") {
        if j == n {
            return Some(Command::ActiveJobs);
        }
    }
    proof {
        if s@ == "\"ActiveJobs\""@ {
            assert(lit_at(s@, 0, "\"ActiveJobs\""@));
            assert(false);
        }
    }
    if let Some(j0) = match_lit(s, 0, "{\"SetWatch\":{\"device_number\":") {
        proof {
            reveal_strlit("}}");
        }
        let (d, j1) = match decode_u64(s, j0) {
            Some(p) => p,
            None => {
                return None;
            },
        };
        if d > (u32::MAX as u64) {
            return None;
        }
        let j2 = match match_lit(s, j1, ",\"watching\":") {
            Some(j) => j,
            None => {
                return None;
            },
        };
        let (w, j3) = match decode_bool(s, j2) {
            Some(p) => p,
            None => {
                return None;
            },
        };
        let j4 = match match_lit(s, j3, "}}") {
            Some(j) => j,
            None => {
                return None;
            },
        };
        if j4 != n {
            return None;
        }
        return Some(Command::SetWatch { device_number: d as u32, watching: w });
    }
    if let Some(j0) = match_lit(s, 0, "{\"QueueJob\":{\"user\":") {
        proof {
            reveal_strlit("}}");
        }
        let (user, j1) = match decode_user(s, j0) {
            Some(p) => p,
            None => {
                return None;
            },
        };
        let j2 = match match_lit(s, j1, ",\"image_id\":") {
            Some(j) => j,
            None => {
                return None;
            },
        };
        let (image_id, j3) = match decode_json_str(s, j2) {
            Some(p) => p,
            None => {
                return None;
            },
        };
        let j4 = match match_lit(s, j3, ",\"gpus\":") {
            Some(j) => j,
            None => {
                return None;
            },
        };
        let (gpus, j5) = match decode_u32_list(s, j4) {
            Some(p) => p,
            None => {
                return None;
            },
        };
        let j6 = match match_lit(s, j5, "}}") {
            Some(j) => j,
            None => {
                return None;
            },
        };
        if j6 != n {
            return None;
        }
        return Some(Command::QueueJob { user, image_id, gpus });
    }
    if let Some(j0) = match_lit(s, 0, "{\"MyJobs\":{\"uid\":") {
        proof {
            reveal_strlit("}}");
        }
        let (uid, j1) = match decode_u64(s, j0) {
            Some(p) => p,
            None => {
                return None;
            },
        };
        if uid > (usize::MAX as u64) {
            return None;
        }
        let j2 = match match_lit(s, j1, "}}") {
            Some(j) => j,
            None => {
                return None;
            },
        };
        if j2 != n {
            return None;
        }
        return Some(Command::MyJobs { uid: uid as usize });
    }
    None
}

/// Read one whole response document, or nothing for anything malformed.
#[verifier::rlimit(100)]
#[verifier::spinoff_prover]
pub fn decode_response(s: &str) -> (r: Option<Response>)
    ensures
        match r {
            Some(v) => dec_response(s@) == Some(v@),
            None => dec_response(s@) is None,
        },
{
    let n = s.unicode_len();
    proof {
        assert(s@.subrange(0, n as int) =~= s@);
        reveal_strlit("}");
        assert("}"@ =~= seq!['}']);
    }
    if let Some(j) = match_lit(s, 0, "\"Success\"") {
        if j == n {
            return Some(Response::Success);
        }
    }
    proof {
        if s@ == "\"Success\""@ {
            assert(lit_at(s@, 0, "\"Success\""@));
            assert(false);
        }
    }
    if let Some(j0) = match_lit(s, 0, "{\"Error\":") {
        let (m, j1) = match decode_json_str(s, j0) {
            Some(p) => p,
            None => {
                return None;
            },
        };
        let j2 = match match_lit(s, j1, "}") {
            Some(j) => j,
            None => {
                return None;
            },
        };
        if j2 != n {
            return None;
        }
        return Some(Response::Error(m));
    }
    if let Some(j0) = match_lit(s, 0, "{\"GPUStatus\":{\"locks\":[") {
        proof {
            reveal_strlit("]}}");
            reveal_strlit("}}");
        }
        if let Some(j) = match_lit(s, j0, "]}}") {
            if j == n {
                let locks: Vec<Option<User>> = Vec::new();
                proof {
                    assert(locks_view(locks@) =~= Seq::<Option<UserModel>>::empty());
                }
                return Some(Response::GPUStatus { locks });
            }
        }
        let (locks, j1) = match decode_lock_items(s, j0, n) {
            Some(p) => p,
            None => {
                return None;
            },
        };
        let j2 = match match_lit(s, j1, "}}") {
            Some(j) => j,
            None => {
                return None;
            },
        };
        if j2 != n {
            return None;
        }
        return Some(Response::GPUStatus { locks });
    }
    if let Some(j0) = match_lit(s, 0, "{\"ActiveJobs\":[") {
        proof {
            reveal_strlit("]}");
        }
        if let Some(j) = match_lit(s, j0, "]}") {
            if j == n {
                let v: Vec<JobDesc> = Vec::new();
                proof {
                    assert(descs_view(v@) =~= Seq::<JobDescModel>::empty());
                }
                return Some(Response::ActiveJobs(v));
            }
        }
        let (v, j1) = match decode_desc_items(s, j0, n) {
            Some(p) => p,
            None => {
                return None;
            },
        };
        let j2 = match match_lit(s, j1, "}") {
            Some(j) => j,
            None => {
                return None;
            },
        };
        if j2 != n {
            return None;
        }
        return Some(Response::ActiveJobs(v));
    }
    if let Some(j0) = match_lit(s, 0, "{\"MyJobs\":[") {
        proof {
            reveal_strlit("]}");
        }
        if let Some(j) = match_lit(s, j0, "]}") {
            if j == n {
                let v: Vec<QueuedJobDesc> = Vec::new();
                proof {
                    assert(entries_view(v@) =~= Seq::<EntryModel>::empty());
                }
                return Some(Response::MyJobs(v));
            }
        }
        let (v, j1) = match decode_entry_items(s, j0, n) {
            Some(p) => p,
            None => {
                return None;
            },
        };
        let j2 = match match_lit(s, j1, "}") {
            Some(j) => j,
            None => {
                return None;
            },
        };
        if j2 != n {
            return None;
        }
        return Some(Response::MyJobs(v));
    }
    None
}

/// Advance past whitespace, to the next token or the document's end.
fn skip_ws_exec(s: &str, i: usize) -> (r: usize)
    requires
        i <= s@.len(),
    ensures
        r as int == skip_ws(s@, i as int),
        i <= r <= s@.len(),
{
    let n = s.unicode_len();
    let mut j: usize = i;
    loop
        invariant
            n == s@.len(),
            i <= j <= n,
            skip_ws(s@, i as int) == skip_ws(s@, j as int),
        decreases n - j,
    {
        if j >= n {
            return j;
        }
        let c = s.get_char(j);
        if c == ' ' || c == '\n' || c == '\t' || c == '\r' {
            j = j + 1;
        } else {
            return j;
        }
    }
}

/// Read the configuration file's one JSON document, or nothing for anything
/// malformed. Insignificant whitespace between the tokens is accepted.
pub fn parse_config(s: &str) -> (r: Option<ClobberConfig>)
    ensures
        match r {
            Some(c) => dec_config(s@) == Some(c@),
            None => dec_config(s@) is None,
        },
{
    let n = s.unicode_len();
    proof {
        assert(s@.subrange(0, n as int) =~= s@);
        reveal_strlit("{");
        reveal_strlit(":");
        reveal_strlit("}");
        assert("{"@ =~= seq!['{']);
        assert(":"@ =~= seq![':']);
        assert("}"@ =~= seq!['}']);
    }
    let i0 = skip_ws_exec(s, 0);
    let i0b = match match_lit(s, i0, "{") {
        Some(j) => j,
        None => {
            return None;
        },
    };
    let i1 = skip_ws_exec(s, i0b);
    let i1b = match match_lit(s, i1, "\"pings_api_key\"") {
        Some(j) => j,
        None => {
            return None;
        },
    };
    let i2 = skip_ws_exec(s, i1b);
    let i2b = match match_lit(s, i2, ":") {
        Some(j) => j,
        None => {
            return None;
        },
    };
    let i3 = skip_ws_exec(s, i2b);
    let (key, j) = match decode_json_str(s, i3) {
        Some(p) => p,
        None => {
            return None;
        },
    };
    let j1 = skip_ws_exec(s, j);
    let j1b = match match_lit(s, j1, "}") {
        Some(j2) => j2,
        None => {
            return None;
        },
    };
    if skip_ws_exec(s, j1b) != n {
        return None;
    }
    Some(ClobberConfig { pings_api_key: key })
}

} // verus!
