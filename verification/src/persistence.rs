//! The session persistence codec and the resume decision. A session is
//! serialized to a plain string — the tag and every account field, losslessly
//! — so a restarted client can recover an authorized session from a key-value
//! store. The format is the library's own: a tag character, four
//! length-prefixed string fields (username, email, password digest, display
//! name), and the birthday as three decimal numbers. Restoring fails safe:
//! anything that does not decode exactly is treated as logged out.

use vstd::prelude::*;

use crate::date::Date;
use crate::hashing::hex_char_of;
use crate::hashing::hex_digit_str;
use crate::hashing::spec_password_digest;
use crate::user_manager::AccountView;
use crate::user_manager::Authorized;
use crate::user_manager::StateView;
use crate::user_manager::UserManager;
use crate::user_manager::UserState;
use crate::user_manager::spec_create;

verus! {

/// The value of a decimal digit character, and 10 for anything else.
pub open spec fn digit_val(c: char) -> nat {
    if c == '0' {
        0
    } else if c == '1' {
        1
    } else if c == '2' {
        2
    } else if c == '3' {
        3
    } else if c == '4' {
        4
    } else if c == '5' {
        5
    } else if c == '6' {
        6
    } else if c == '7' {
        7
    } else if c == '8' {
        8
    } else if c == '9' {
        9
    } else {
        10
    }
}

pub open spec fn is_digit_char(c: char) -> bool {
    digit_val(c) < 10
}

/// The canonical decimal rendering of a number: most significant digit first,
/// no leading zeros, at least one digit.
pub open spec fn spec_dec(n: nat) -> Seq<char>
    decreases n,
{
    if n < 10 {
        seq![hex_char_of(n as u8)]
    } else {
        spec_dec(n / 10).push(hex_char_of((n % 10) as u8))
    }
}

/// The numeric reading of a digit string, most significant digit first.
pub open spec fn dec_value(s: Seq<char>) -> nat
    decreases s.len(),
{
    if s.len() == 0 {
        0
    } else {
        dec_value(s.drop_last()) * 10 + digit_val(s.last())
    }
}

/// A string field in the persisted form: its character count in decimal, a
/// colon, then the characters themselves. The length prefix makes the format
/// lossless whatever the field holds.
pub open spec fn enc_field(f: Seq<char>) -> Seq<char> {
    spec_dec(f.len()) + seq![':'] + f
}

/// A possibly-negative number in the persisted form.
pub open spec fn enc_int(n: int) -> Seq<char> {
    if n < 0 {
        seq!['-'] + spec_dec((-n) as nat)
    } else {
        spec_dec(n as nat)
    }
}

/// A date in the persisted form: year, month and day, colon-separated.
pub open spec fn enc_date(d: Date) -> Seq<char> {
    enc_int(d.year as int) + seq![':'] + spec_dec(d.month as nat) + seq![':'] + spec_dec(
        d.day as nat,
    )
}

/// An account's fields in the persisted form. Only the digest of the password
/// is present; the record never held the plaintext.
pub open spec fn spec_encode_account(a: AccountView) -> Seq<char> {
    enc_field(a.username) + enc_field(a.email) + enc_field(a.password_hash) + enc_field(a.name)
        + enc_date(a.birthday)
}

/// The whole persisted form: the authorization tag, then the account.
pub open spec fn spec_encode(m: StateView) -> Seq<char> {
    match m {
        StateView::Unauthorized(a) => seq!['U'] + spec_encode_account(a),
        StateView::Authorized(a) => seq!['A'] + spec_encode_account(a),
    }
}

fn append_dec(out: &mut String, n: usize)
    ensures
        final(out)@ == old(out)@ + spec_dec(n as nat),
    decreases n,
{
    if n < 10 {
        out.append(hex_digit_str(n as u8));
        proof {
            assert(spec_dec(n as nat) =~= seq![hex_char_of(n as u8)]);
        }
    } else {
        append_dec(out, n / 10);
        out.append(hex_digit_str((n % 10) as u8));
        proof {
            assert(spec_dec(n as nat) =~= spec_dec((n / 10) as nat) + seq![
                hex_char_of((n % 10) as u8),
            ]);
            assert(out@ =~= old(out)@ + spec_dec(n as nat));
        }
    }
}

fn append_field(out: &mut String, f: &String)
    ensures
        final(out)@ == old(out)@ + enc_field(f@),
{
    let flen = f.as_str().unicode_len();
    append_dec(out, flen);
    out.append(":");
    out.append(f.as_str());
    proof {
        reveal_strlit(":");
        assert(":"@ =~= seq![':']);
        assert(out@ =~= old(out)@ + enc_field(f@));
    }
}

fn append_date(out: &mut String, d: Date)
    ensures
        final(out)@ == old(out)@ + enc_date(d),
{
    if d.year < 0 {
        out.append("-");
        let magnitude = -(d.year as i64);
        append_dec(out, magnitude as usize);
        proof {
            reveal_strlit("-");
            assert("-"@ =~= seq!['-']);
            assert(enc_int(d.year as int) =~= seq!['-'] + spec_dec((-(d.year as int)) as nat));
            assert(out@ =~= old(out)@ + enc_int(d.year as int));
        }
    } else {
        append_dec(out, d.year as usize);
        proof {
            assert(out@ =~= old(out)@ + enc_int(d.year as int));
        }
    }
    out.append(":");
    append_dec(out, d.month as usize);
    out.append(":");
    append_dec(out, d.day as usize);
    proof {
        reveal_strlit(":");
        assert(":"@ =~= seq![':']);
        assert(out@ =~= old(out)@ + enc_date(d));
    }
}

fn append_account<State>(out: &mut String, m: &UserManager<State>)
    ensures
        final(out)@ == old(out)@ + spec_encode_account(m@),
{
    append_field(out, m.stored_username());
    append_field(out, m.stored_email());
    append_field(out, m.stored_password_hash());
    append_field(out, m.stored_name());
    append_date(out, m.stored_birthday());
    proof {
        assert(out@ =~= old(out)@ + spec_encode_account(m@));
    }
}

/// Serialize a session for the key-value store: the tag and every account
/// field, losslessly, and never anything derived from the plaintext password
/// beyond its digest.
pub fn encode_session(state: &UserState) -> (r: String)
    ensures
        r@ == spec_encode(state@),
{
    match state {
        UserState::Unauthorized(m) => {
            let mut out = "U".to_owned();
            append_account(&mut out, m);
            proof {
                reveal_strlit("U");
                assert("U"@ =~= seq!['U']);
                assert(out@ =~= spec_encode(state@));
            }
            out
        },
        UserState::Authorized(m) => {
            let mut out = "A".to_owned();
            append_account(&mut out, m);
            proof {
                reveal_strlit("A");
                assert("A"@ =~= seq!['A']);
                assert(out@ =~= spec_encode(state@));
            }
            out
        },
    }
}

proof fn lemma_digit_char_val(d: nat)
    requires
        d < 10,
    ensures
        digit_val(hex_char_of(d as u8)) == d,
        is_digit_char(hex_char_of(d as u8)),
{
}

proof fn lemma_spec_dec_digits(n: nat)
    ensures
        spec_dec(n).len() >= 1,
        forall|i: int| 0 <= i < spec_dec(n).len() ==> is_digit_char(#[trigger] spec_dec(n)[i]),
    decreases n,
{
    if n < 10 {
        lemma_digit_char_val(n);
    } else {
        lemma_spec_dec_digits(n / 10);
        lemma_digit_char_val(n % 10);
        assert forall|i: int| 0 <= i < spec_dec(n).len() implies is_digit_char(
            #[trigger] spec_dec(n)[i],
        ) by {
            if i < spec_dec(n / 10).len() {
                assert(spec_dec(n)[i] == spec_dec(n / 10)[i]);
            } else {
                assert(spec_dec(n)[i] == hex_char_of((n % 10) as u8));
            }
        }
    }
}

proof fn lemma_dec_value_spec_dec(n: nat)
    ensures
        dec_value(spec_dec(n)) == n,
    decreases n,
{
    if n < 10 {
        lemma_digit_char_val(n);
        assert(spec_dec(n).drop_last() =~= Seq::<char>::empty());
        assert(spec_dec(n).last() == hex_char_of(n as u8));
        assert(dec_value(Seq::<char>::empty()) == 0);
        assert(dec_value(spec_dec(n)) == dec_value(spec_dec(n).drop_last()) * 10 + digit_val(
            spec_dec(n).last(),
        ));
    } else {
        lemma_dec_value_spec_dec(n / 10);
        lemma_digit_char_val(n % 10);
        assert(spec_dec(n).drop_last() =~= spec_dec(n / 10));
        assert(spec_dec(n).last() == hex_char_of((n % 10) as u8));
        assert(dec_value(spec_dec(n)) == dec_value(spec_dec(n).drop_last()) * 10 + digit_val(
            spec_dec(n).last(),
        ));
    }
}

/// Reading a prefix of a digit string never yields more than the whole.
proof fn lemma_dec_value_prefix_le(s: Seq<char>, k: int)
    requires
        0 <= k <= s.len(),
    ensures
        dec_value(s.subrange(0, k)) <= dec_value(s),
    decreases s.len() - k,
{
    if k < s.len() {
        lemma_dec_value_prefix_le(s, k + 1);
        assert(s.subrange(0, k + 1).drop_last() =~= s.subrange(0, k));
        assert(dec_value(s.subrange(0, k + 1)) == dec_value(s.subrange(0, k)) * 10 + digit_val(
            s.subrange(0, k + 1).last(),
        ));
    } else {
        assert(s.subrange(0, k) =~= s);
    }
}

/// Where a canonical decimal number stands in `s` at position `i`: exactly its
/// digits, ended by a non-digit character or by the end of the string.
pub open spec fn dec_at(s: Seq<char>, i: int, n: nat) -> bool {
    &&& 0 <= i
    &&& i + spec_dec(n).len() <= s.len()
    &&& s.subrange(i, i + spec_dec(n).len()) == spec_dec(n)
    &&& (i + spec_dec(n).len() == s.len() || !is_digit_char(s[i + spec_dec(n).len()]))
}

fn digit_of(c: char) -> (r: u8)
    ensures
        r as nat == digit_val(c),
{
    if c == '0' {
        0
    } else if c == '1' {
        1
    } else if c == '2' {
        2
    } else if c == '3' {
        3
    } else if c == '4' {
        4
    } else if c == '5' {
        5
    } else if c == '6' {
        6
    } else if c == '7' {
        7
    } else if c == '8' {
        8
    } else if c == '9' {
        9
    } else {
        10
    }
}

/// Read the digit run starting at `from` and its numeric value. Whenever some
/// number's canonical decimal stands there (ended by a non-digit or the end),
/// the scan finds exactly that number and stops right after its digits.
fn scan_number(s: &str, from: usize, slen: usize) -> (r: Option<(usize, usize)>)
    requires
        slen == s@.len(),
        from <= slen,
    ensures
        r matches Some(p) ==> from <= p.1 <= slen,
        forall|n: nat|
            dec_at(s@, from as int, n) && n <= usize::MAX ==> r == Some(
                (n as usize, (from + spec_dec(n).len()) as usize),
            ),
{
    let mut k = from;
    let mut acc: usize = 0;
    loop
        invariant
            slen == s@.len(),
            from <= k <= slen,
            forall|j: int| from <= j < k ==> is_digit_char(#[trigger] s@[j]),
            acc as nat == dec_value(s@.subrange(from as int, k as int)),
        ensures
            from <= k <= slen,
            forall|j: int| from <= j < k ==> is_digit_char(#[trigger] s@[j]),
            acc as nat == dec_value(s@.subrange(from as int, k as int)),
            k == slen || !is_digit_char(s@[k as int]),
        decreases slen - k,
    {
        if k == slen {
            break ;
        }
        let c = s.get_char(k);
        let d = digit_of(c);
        if d >= 10 {
            break ;
        }
        let stepped = match acc.checked_mul(10) {
            Some(acc10) => acc10.checked_add(d as usize),
            None => None,
        };
        match stepped {
            Some(next) => {
                proof {
                    assert(s@.subrange(from as int, k + 1).drop_last() =~= s@.subrange(
                        from as int,
                        k as int,
                    ));
                    assert(s@.subrange(from as int, k + 1).last() == s@[k as int]);
                }
                acc = next;
                k = k + 1;
            },
            None => {
                // The run overflows a usize; no number below the bound can
                // stand here, so the hypothesis of the postcondition is empty.
                proof {
                    assert forall|n: nat| dec_at(s@, from as int, n) && n <= usize::MAX implies
                        false by {
                        lemma_spec_dec_digits(n);
                        let ll = spec_dec(n).len() as int;
                        let t = s@.subrange(from as int, from + ll);
                        // the scanned position is still inside the digit run
                        assert(k < from + ll);
                        // the value read so far, extended by this digit, is a
                        // prefix of the number, so it cannot overflow
                        let p = s@.subrange(from as int, k + 1);
                        assert(p =~= t.subrange(0, k + 1 - from));
                        lemma_dec_value_prefix_le(t, k + 1 - from);
                        lemma_dec_value_spec_dec(n);
                        assert(p.drop_last() =~= s@.subrange(from as int, k as int));
                        assert(p.last() == s@[k as int]);
                        assert(dec_value(p) == acc as nat * 10 + digit_val(s@[k as int]));
                        assert(dec_value(p) <= n);
                    }
                }
                return None;
            },
        }
    }
    if k == from {
        proof {
            assert forall|n: nat| dec_at(s@, from as int, n) && n <= usize::MAX implies false by {
                lemma_spec_dec_digits(n);
                if from < slen {
                    assert(s@[from as int] == spec_dec(n)[0]);
                    assert(is_digit_char(s@[from as int]));
                }
            }
        }
        return None;
    }
    proof {
        assert forall|n: nat| dec_at(s@, from as int, n) && n <= usize::MAX implies (acc as nat == n
            && k as int == from + spec_dec(n).len()) by {
            lemma_spec_dec_digits(n);
            let ll = spec_dec(n).len() as int;
            assert(k as int == from + ll) by {
                if k < from + ll {
                    assert(spec_dec(n)[k - from] == s@[k as int]);
                    assert(is_digit_char(s@[k as int]));
                } else if k > from + ll {
                    assert(is_digit_char(s@[from + ll]));
                }
            }
            assert(s@.subrange(from as int, k as int) == spec_dec(n));
            lemma_dec_value_spec_dec(n);
        }
    }
    Some((acc, k))
}

/// Where an encoded field stands in `s` at position `i`.
pub open spec fn field_at(s: Seq<char>, i: int, f: Seq<char>) -> bool {
    &&& 0 <= i
    &&& i + enc_field(f).len() <= s.len()
    &&& s.subrange(i, i + enc_field(f).len()) == enc_field(f)
}

/// An encoded field starts with its length as a canonical decimal, ended by
/// the colon, and the field's characters follow the colon.
proof fn lemma_field_at_parts(s: Seq<char>, i: int, f: Seq<char>)
    requires
        field_at(s, i, f),
    ensures
        dec_at(s, i, f.len()),
        enc_field(f).len() == spec_dec(f.len()).len() + 1 + f.len(),
        s[i + spec_dec(f.len()).len()] == ':',
        s.subrange(i + spec_dec(f.len()).len() + 1, i + enc_field(f).len()) == f,
{
    let d = spec_dec(f.len());
    let e = enc_field(f);
    assert(e.len() == d.len() + 1 + f.len());
    assert forall|x: int| 0 <= x < e.len() implies s[i + x] == e[x] by {
        assert(s.subrange(i, i + e.len() as int)[x] == s[i + x]);
    }
    assert(s.subrange(i, i + d.len() as int) =~= d);
    assert(s[i + d.len()] == e[d.len() as int]);
    assert(e[d.len() as int] == ':');
    assert forall|x: int| 0 <= x < f.len() implies s.subrange(i + d.len() + 1, i + e.len())[x]
        == f[x] by {
        assert(s[i + (d.len() + 1 + x)] == e[d.len() + 1 + x]);
        assert(e[d.len() + 1 + x] == f[x]);
    }
    assert(s.subrange(i + d.len() + 1, i + e.len()) =~= f);
}

/// Parse one length-prefixed field starting at `from`. Whenever an encoded
/// field stands there, the parse recovers exactly that field and stops right
/// after it.
fn parse_field(s: &str, from: usize, slen: usize) -> (r: Option<(String, usize)>)
    requires
        slen == s@.len(),
        from <= slen,
    ensures
        r matches Some(p) ==> from <= p.1 <= slen,
        forall|f: Seq<char>|
            field_at(s@, from as int, f) ==> (r matches Some(p) && p.0@ == f && p.1 == from
                + enc_field(f).len()),
{
    let scanned = scan_number(s, from, slen);
    let (n, end) = match scanned {
        Some(p) => p,
        None => {
            proof {
                assert forall|f: Seq<char>| field_at(s@, from as int, f) implies false by {
                    lemma_field_at_parts(s@, from as int, f);
                }
            }
            return None;
        },
    };
    if end >= slen {
        proof {
            assert forall|f: Seq<char>| field_at(s@, from as int, f) implies false by {
                lemma_field_at_parts(s@, from as int, f);
            }
        }
        return None;
    }
    let c = s.get_char(end);
    if c != ':' {
        proof {
            assert forall|f: Seq<char>| field_at(s@, from as int, f) implies false by {
                lemma_field_at_parts(s@, from as int, f);
            }
        }
        return None;
    }
    if n > slen - (end + 1) {
        proof {
            assert forall|f: Seq<char>| field_at(s@, from as int, f) implies false by {
                lemma_field_at_parts(s@, from as int, f);
            }
        }
        return None;
    }
    let field = s.substring_char(end + 1, end + 1 + n).to_owned();
    proof {
        assert forall|f: Seq<char>| field_at(s@, from as int, f) implies (field@ == f && end + 1 + n
            == from + enc_field(f).len()) by {
            lemma_field_at_parts(s@, from as int, f);
        }
    }
    Some((field, end + 1 + n))
}

/// The tag character that opens the persisted form.
pub open spec fn tag_char(m: StateView) -> char {
    if m is Authorized {
        'A'
    } else {
        'U'
    }
}

spec fn pos_email(a: AccountView) -> int {
    1 + enc_field(a.username).len() as int
}

spec fn pos_hash(a: AccountView) -> int {
    pos_email(a) + enc_field(a.email).len() as int
}

spec fn pos_name(a: AccountView) -> int {
    pos_hash(a) + enc_field(a.password_hash).len() as int
}

spec fn pos_date(a: AccountView) -> int {
    pos_name(a) + enc_field(a.name).len() as int
}

spec fn pos_month(a: AccountView) -> int {
    pos_date(a) + enc_int(a.birthday.year as int).len() as int + 1
}

spec fn pos_day(a: AccountView) -> int {
    pos_month(a) + spec_dec(a.birthday.month as nat).len() as int + 1
}

/// Splitting a known suffix of `e` into a middle part and the rest.
proof fn lemma_suffix_extract(e: Seq<char>, i: int, mid: Seq<char>, post: Seq<char>)
    requires
        0 <= i <= e.len(),
        e.subrange(i, e.len() as int) == mid + post,
    ensures
        i + mid.len() + post.len() == e.len(),
        e.subrange(i, i + mid.len()) == mid,
        e.subrange(i + mid.len(), e.len() as int) == post,
{
    let sub = e.subrange(i, e.len() as int);
    assert(sub.len() == mid.len() + post.len());
    assert(i + mid.len() + post.len() == e.len());
    assert forall|x: int| 0 <= x < mid.len() implies e.subrange(i, i + mid.len())[x] == mid[x] by {
        assert(sub[x] == e[i + x]);
        assert(sub[x] == mid[x]);
    }
    assert(e.subrange(i, i + mid.len()) =~= mid);
    assert forall|x: int| 0 <= x < post.len() implies e.subrange(i + mid.len(), e.len() as int)[x]
        == post[x] by {
        assert(sub[mid.len() + x] == e[i + mid.len() + x]);
        assert(sub[mid.len() + x] == post[x]);
    }
    assert(e.subrange(i + mid.len(), e.len() as int) =~= post);
}

/// Where the parts of an encoded date stand, when it ends the string: year,
/// month and day, colon-separated, the day's digits last.
#[verifier::rlimit(100)]
#[verifier::spinoff_prover]
proof fn lemma_date_structure(e: Seq<char>, i: int, d: Date)
    requires
        0 <= i <= e.len(),
        e.subrange(i, e.len() as int) == enc_date(d),
    ensures
        ({
            let y = d.year as int;
            let pm = i + enc_int(y).len() as int + 1;
            let pd = pm + spec_dec(d.month as nat).len() as int + 1;
            &&& (y >= 0 ==> dec_at(e, i, y as nat))
            &&& (y < 0 ==> e[i] == '-' && dec_at(e, i + 1, (-y) as nat))
            &&& pm - 1 < e.len()
            &&& e[pm - 1] == ':'
            &&& dec_at(e, pm, d.month as nat)
            &&& pd - 1 < e.len()
            &&& e[pd - 1] == ':'
            &&& dec_at(e, pd, d.day as nat)
            &&& pd + spec_dec(d.day as nat).len() == e.len()
        }),
{
    let y = d.year as int;
    let iy = enc_int(y);
    let dm = spec_dec(d.month as nat);
    let dd = spec_dec(d.day as nat);
    let c = seq![':'];
    let r5 = c + (dm + (c + dd));
    let r6 = dm + (c + dd);
    let r7 = c + dd;
    let pm = i + iy.len() as int + 1;
    let pd = pm + dm.len() as int + 1;
    assert(enc_date(d) =~= iy + r5);
    lemma_suffix_extract(e, i, iy, r5);
    lemma_suffix_extract(e, pm - 1, c, r6);
    lemma_suffix_extract(e, pm, dm, r7);
    lemma_suffix_extract(e, pd - 1, c, dd);
    lemma_suffix_extract(e, pd, dd, Seq::<char>::empty());
    assert(dd + Seq::<char>::empty() =~= dd);
    assert(e[pm - 1] == e.subrange(pm - 1, pm)[0]);
    assert(e[pd - 1] == e.subrange(pd - 1, pd)[0]);
    if y >= 0 {
        assert(iy == spec_dec(y as nat));
        assert(e.subrange(i, i + iy.len()) == spec_dec(y as nat));
    } else {
        assert(iy == seq!['-'] + spec_dec((-y) as nat));
        assert(e.subrange(i, e.len() as int) =~= seq!['-'] + (spec_dec((-y) as nat) + r5));
        lemma_suffix_extract(e, i, seq!['-'], spec_dec((-y) as nat) + r5);
        assert(e[i] == e.subrange(i, i + 1)[0]);
        lemma_suffix_extract(e, i + 1, spec_dec((-y) as nat), r5);
    }
}

/// Where each part of the persisted form stands: the tag first, the four
/// length-prefixed fields next, then the date.
#[verifier::rlimit(100)]
#[verifier::spinoff_prover]
proof fn lemma_encode_structure(m: StateView)
    ensures
        ({
            let e = spec_encode(m);
            let a = m.account();
            let y = a.birthday.year as int;
            &&& 1 <= e.len()
            &&& e[0] == tag_char(m)
            &&& field_at(e, 1, a.username)
            &&& field_at(e, pos_email(a), a.email)
            &&& field_at(e, pos_hash(a), a.password_hash)
            &&& field_at(e, pos_name(a), a.name)
            &&& (y >= 0 ==> dec_at(e, pos_date(a), y as nat))
            &&& (y < 0 ==> e[pos_date(a)] == '-' && dec_at(e, pos_date(a) + 1, (-y) as nat))
            &&& pos_month(a) - 1 < e.len()
            &&& e[pos_month(a) - 1] == ':'
            &&& dec_at(e, pos_month(a), a.birthday.month as nat)
            &&& pos_day(a) - 1 < e.len()
            &&& e[pos_day(a) - 1] == ':'
            &&& dec_at(e, pos_day(a), a.birthday.day as nat)
            &&& pos_day(a) + spec_dec(a.birthday.day as nat).len() == e.len()
        }),
{
    let e = spec_encode(m);
    let a = m.account();
    let t = seq![tag_char(m)];
    let fu = enc_field(a.username);
    let fe = enc_field(a.email);
    let fh = enc_field(a.password_hash);
    let fnm = enc_field(a.name);
    let ed = enc_date(a.birthday);
    match m {
        StateView::Unauthorized(a0) => {
            assert(e == seq!['U'] + spec_encode_account(a));
            assert(t =~= seq!['U']);
        },
        StateView::Authorized(a0) => {
            assert(e == seq!['A'] + spec_encode_account(a));
            assert(t =~= seq!['A']);
        },
    }
    let r1 = fe + (fh + (fnm + ed));
    let r2 = fh + (fnm + ed);
    let r3 = fnm + ed;
    assert(e =~= t + (fu + r1));
    assert(e.subrange(0, e.len() as int) =~= e);
    lemma_suffix_extract(e, 0, t, fu + r1);
    assert(e[0] == e.subrange(0, 1)[0]);
    lemma_suffix_extract(e, 1, fu, r1);
    lemma_suffix_extract(e, pos_email(a), fe, r2);
    lemma_suffix_extract(e, pos_hash(a), fh, r3);
    lemma_suffix_extract(e, pos_name(a), fnm, ed);
    lemma_date_structure(e, pos_date(a), a.birthday);
}

/// No plaintext leakage: the persisted form of a freshly created account is a
/// function of the password's digest alone. Two creations that differ only in
/// the plaintext, but whose digests agree, persist identically, so the stored
/// form carries nothing of the plaintext beyond its digest.
pub proof fn lemma_persisted_form_holds_only_digest(
    username: Seq<char>,
    email: Seq<char>,
    password1: Seq<char>,
    password2: Seq<char>,
    name: Seq<char>,
    birthday: Date,
)
    requires
        spec_password_digest(password1) == spec_password_digest(password2),
    ensures
        spec_encode(StateView::Unauthorized(spec_create(username, email, password1, name, birthday)))
            == spec_encode(
            StateView::Unauthorized(spec_create(username, email, password2, name, birthday)),
        ),
{
    assert(spec_create(username, email, password1, name, birthday) =~= spec_create(
        username,
        email,
        password2,
        name,
        birthday,
    ));
}

/// Recover a session from its persisted form. Exactly the strings that
/// `encode_session` produces for a well-formed session decode, and they
/// decode to exactly that session; every other string is rejected.
#[verifier::rlimit(100)]
pub fn decode_session(s: &str) -> (r: Option<UserState>)
    ensures
        r matches Some(st) ==> st@.wf() && s@ == spec_encode(st@),
        forall|m: StateView|
            m.wf() && s@ == spec_encode(m) ==> (r matches Some(st) && st@ == m),
{
    let slen = s.unicode_len();
    if slen == 0 {
        proof {
            assert forall|m: StateView| m.wf() && s@ == spec_encode(m) implies false by {
                lemma_encode_structure(m);
            }
        }
        return None;
    }
    let tag = s.get_char(0);
    if tag != 'A' && tag != 'U' {
        proof {
            assert forall|m: StateView| m.wf() && s@ == spec_encode(m) implies false by {
                lemma_encode_structure(m);
            }
        }
        return None;
    }
    let r1 = parse_field(s, 1, slen);
    let (username, p1) = match r1 {
        Some(p) => p,
        None => {
            proof {
                assert forall|m: StateView| m.wf() && s@ == spec_encode(m) implies false by {
                    lemma_encode_structure(m);
                    assert(field_at(s@, 1, m.account().username));
                }
            }
            return None;
        },
    };
    let r2 = parse_field(s, p1, slen);
    let (email, p2) = match r2 {
        Some(p) => p,
        None => {
            proof {
                assert forall|m: StateView| m.wf() && s@ == spec_encode(m) implies false by {
                    lemma_encode_structure(m);
                    let a = m.account();
                    assert(field_at(s@, 1, a.username));
                    assert(p1 as int == pos_email(a));
                    assert(field_at(s@, p1 as int, a.email));
                }
            }
            return None;
        },
    };
    let r3 = parse_field(s, p2, slen);
    let (hash, p3) = match r3 {
        Some(p) => p,
        None => {
            proof {
                assert forall|m: StateView| m.wf() && s@ == spec_encode(m) implies false by {
                    lemma_encode_structure(m);
                    let a = m.account();
                    assert(field_at(s@, 1, a.username));
                    assert(p1 as int == pos_email(a));
                    assert(field_at(s@, p1 as int, a.email));
                    assert(p2 as int == pos_hash(a));
                    assert(field_at(s@, p2 as int, a.password_hash));
                }
            }
            return None;
        },
    };
    let r4 = parse_field(s, p3, slen);
    let (name, p4) = match r4 {
        Some(p) => p,
        None => {
            proof {
                assert forall|m: StateView| m.wf() && s@ == spec_encode(m) implies false by {
                    lemma_encode_structure(m);
                    let a = m.account();
                    assert(field_at(s@, 1, a.username));
                    assert(p1 as int == pos_email(a));
                    assert(field_at(s@, p1 as int, a.email));
                    assert(p2 as int == pos_hash(a));
                    assert(field_at(s@, p2 as int, a.password_hash));
                    assert(p3 as int == pos_name(a));
                    assert(field_at(s@, p3 as int, a.name));
                }
            }
            return None;
        },
    };
    proof {
        // the four fields and the position reached, for any session that the
        // string could encode
        assert forall|m: StateView| m.wf() && s@ == spec_encode(m) implies {
            let a = m.account();
            &&& username@ == a.username
            &&& email@ == a.email
            &&& hash@ == a.password_hash
            &&& name@ == a.name
            &&& p4 as int == pos_date(a)
            &&& (tag == 'A' <==> m is Authorized)
        } by {
            lemma_encode_structure(m);
            let a = m.account();
            assert(field_at(s@, 1, a.username));
            assert(p1 as int == pos_email(a));
            assert(field_at(s@, p1 as int, a.email));
            assert(p2 as int == pos_hash(a));
            assert(field_at(s@, p2 as int, a.password_hash));
            assert(p3 as int == pos_name(a));
            assert(field_at(s@, p3 as int, a.name));
            assert(p4 as int == pos_date(a));
            assert(tag == s@[0]);
        }
    }
    if p4 >= slen {
        proof {
            assert forall|m: StateView| m.wf() && s@ == spec_encode(m) implies false by {
                lemma_encode_structure(m);
                let a = m.account();
                assert(pos_date(a) < pos_month(a) - 1 < s@.len());
            }
        }
        return None;
    }
    let first = s.get_char(p4);
    let neg = first == '-';
    let num_start = if neg {
        p4 + 1
    } else {
        p4
    };
    proof {
        // the year's digits start exactly at num_start, for any session that
        // the string could encode
        assert forall|m: StateView| m.wf() && s@ == spec_encode(m) implies {
            let a = m.account();
            let y = a.birthday.year as int;
            &&& (neg <==> y < 0)
            &&& (y >= 0 ==> dec_at(s@, num_start as int, y as nat))
            &&& (y < 0 ==> dec_at(s@, num_start as int, (-y) as nat))
        } by {
            lemma_encode_structure(m);
            let a = m.account();
            let y = a.birthday.year as int;
            if y >= 0 {
                lemma_spec_dec_digits(y as nat);
                assert(s@.subrange(pos_date(a), pos_date(a) + spec_dec(y as nat).len())
                    == spec_dec(y as nat));
                assert(s@[pos_date(a)] == s@.subrange(
                    pos_date(a),
                    pos_date(a) + spec_dec(y as nat).len(),
                )[0]);
                assert(is_digit_char(s@[pos_date(a)]));
                assert(first != '-');
            } else {
                assert(s@[pos_date(a)] == '-');
                assert(first == '-');
            }
        }
    }
    let ry = scan_number(s, num_start, slen);
    let (year_mag, y_end) = match ry {
        Some(p) => p,
        None => {
            proof {
                assert forall|m: StateView| m.wf() && s@ == spec_encode(m) implies false by {
                    let a = m.account();
                    let y = a.birthday.year as int;
                    if y >= 0 {
                        assert(dec_at(s@, num_start as int, y as nat));
                    } else {
                        assert(dec_at(s@, num_start as int, (-y) as nat));
                    }
                }
            }
            return None;
        },
    };
    let year: i32 = if neg {
        if year_mag > 2147483648 {
            proof {
                assert forall|m: StateView| m.wf() && s@ == spec_encode(m) implies false by {
                    let a = m.account();
                    let y = a.birthday.year as int;
                    assert(y < 0);
                    assert(dec_at(s@, num_start as int, (-y) as nat));
                    assert(year_mag == -y);
                }
            }
            return None;
        }
        (-(year_mag as i64)) as i32
    } else {
        if year_mag > 2147483647 {
            proof {
                assert forall|m: StateView| m.wf() && s@ == spec_encode(m) implies false by {
                    let a = m.account();
                    let y = a.birthday.year as int;
                    assert(y >= 0);
                    assert(dec_at(s@, num_start as int, y as nat));
                    assert(year_mag == y);
                }
            }
            return None;
        }
        year_mag as i32
    };
    proof {
        // the year value and where its digits end, for any session that the
        // string could encode
        assert forall|m: StateView| m.wf() && s@ == spec_encode(m) implies {
            let a = m.account();
            &&& year == a.birthday.year
            &&& y_end as int == pos_month(a) - 1
        } by {
            lemma_encode_structure(m);
            let a = m.account();
            let y = a.birthday.year as int;
            if y >= 0 {
                assert(dec_at(s@, num_start as int, y as nat));
                assert(year_mag == y);
                assert(y_end as int == num_start + spec_dec(y as nat).len());
            } else {
                assert(dec_at(s@, num_start as int, (-y) as nat));
                assert(year_mag == -y);
                assert(y_end as int == num_start + spec_dec((-y) as nat).len());
            }
        }
    }
    if y_end >= slen {
        proof {
            assert forall|m: StateView| m.wf() && s@ == spec_encode(m) implies false by {
                lemma_encode_structure(m);
                let a = m.account();
                assert(pos_month(a) - 1 < s@.len());
            }
        }
        return None;
    }
    let rm = scan_number(s, y_end + 1, slen);
    let (month_v, m_end) = match rm {
        Some(p) => p,
        None => {
            proof {
                assert forall|m: StateView| m.wf() && s@ == spec_encode(m) implies false by {
                    lemma_encode_structure(m);
                    let a = m.account();
                    assert(dec_at(s@, pos_month(a), a.birthday.month as nat));
                }
            }
            return None;
        },
    };
    if month_v > 255 || m_end >= slen {
        proof {
            assert forall|m: StateView| m.wf() && s@ == spec_encode(m) implies false by {
                lemma_encode_structure(m);
                let a = m.account();
                assert(dec_at(s@, pos_month(a), a.birthday.month as nat));
                assert(month_v == a.birthday.month);
                assert(m_end as int == pos_day(a) - 1);
                assert(pos_day(a) - 1 < s@.len());
            }
        }
        return None;
    }
    let rd = scan_number(s, m_end + 1, slen);
    let (day_v, _d_end) = match rd {
        Some(p) => p,
        None => {
            proof {
                assert forall|m: StateView| m.wf() && s@ == spec_encode(m) implies false by {
                    lemma_encode_structure(m);
                    let a = m.account();
                    assert(dec_at(s@, pos_month(a), a.birthday.month as nat));
                    assert(m_end as int == pos_day(a) - 1);
                    assert(dec_at(s@, pos_day(a), a.birthday.day as nat));
                }
            }
            return None;
        },
    };
    if day_v > 255 {
        proof {
            assert forall|m: StateView| m.wf() && s@ == spec_encode(m) implies false by {
                lemma_encode_structure(m);
                let a = m.account();
                assert(dec_at(s@, pos_month(a), a.birthday.month as nat));
                assert(m_end as int == pos_day(a) - 1);
                assert(dec_at(s@, pos_day(a), a.birthday.day as nat));
                assert(day_v == a.birthday.day);
            }
        }
        return None;
    }
    let birthday = match Date::new(year, month_v as u8, day_v as u8) {
        Some(d) => d,
        None => {
            proof {
                assert forall|m: StateView| m.wf() && s@ == spec_encode(m) implies false by {
                    lemma_encode_structure(m);
                    let a = m.account();
                    assert(dec_at(s@, pos_month(a), a.birthday.month as nat));
                    assert(month_v == a.birthday.month);
                    assert(m_end as int == pos_day(a) - 1);
                    assert(dec_at(s@, pos_day(a), a.birthday.day as nat));
                    assert(day_v == a.birthday.day);
                    assert((Date { year, month: month_v as u8, day: day_v as u8 })
                        == a.birthday);
                    assert(a.birthday.is_valid());
                }
            }
            return None;
        },
    };
    proof {
        // the whole reconstructed account, for any session that the string
        // could encode
        assert forall|m: StateView| m.wf() && s@ == spec_encode(m) implies {
            let a = m.account();
            &&& (AccountView {
                username: username@,
                email: email@,
                password_hash: hash@,
                name: name@,
                birthday,
            }) == a
            &&& (tag == 'A' <==> m is Authorized)
        } by {
            lemma_encode_structure(m);
            let a = m.account();
            assert(dec_at(s@, pos_month(a), a.birthday.month as nat));
            assert(month_v == a.birthday.month);
            assert(m_end as int == pos_day(a) - 1);
            assert(dec_at(s@, pos_day(a), a.birthday.day as nat));
            assert(day_v == a.birthday.day);
            assert(birthday == a.birthday);
            assert(AccountView {
                username: username@,
                email: email@,
                password_hash: hash@,
                name: name@,
                birthday,
            } =~= a);
        }
    }
    let ghost reconstructed = AccountView {
        username: username@,
        email: email@,
        password_hash: hash@,
        name: name@,
        birthday,
    };
    let st = if tag == 'A' {
        UserState::Authorized(UserManager::from_stored(username, email, hash, name, birthday))
    } else {
        UserState::Unauthorized(UserManager::from_stored(username, email, hash, name, birthday))
    };
    proof {
        assert(st@.account() =~= reconstructed);
        assert forall|m: StateView| m.wf() && s@ == spec_encode(m) implies st@ == m by {
            assert(reconstructed == m.account());
            match m {
                StateView::Unauthorized(a0) => {
                    assert(st@ =~= m);
                },
                StateView::Authorized(a0) => {
                    assert(st@ =~= m);
                },
            }
        }
    }
    let canon = encode_session(&st);
    if canon == s.to_owned() {
        Some(st)
    } else {
        proof {
            assert forall|m: StateView| m.wf() && s@ == spec_encode(m) implies false by {
                assert(st@ == m);
                assert(canon@ == spec_encode(m));
            }
        }
        None
    }
}

/// What a restarted client should do, given the stored "logged in" flag and
/// the stored session blob.
pub enum SessionRestore {
    /// The stored blob decoded to an authorized session: resume it without
    /// asking for credentials again.
    Resumed(UserManager<Authorized>),
    /// Start unauthenticated. `clear_stored` says whether the stored keys
    /// claimed an authorized session they could not deliver, and should be
    /// cleared: the decision fails safe toward logged out, never open toward
    /// logged in.
    Fresh { clear_stored: bool },
}

/// Decide how a restarted client resumes. A session is resumed exactly when
/// the flag says "logged in" and the blob is the persisted form of an
/// authorized session; anything else starts unauthenticated, clearing the
/// stored keys whenever the flag had claimed an authorized session.
pub fn restore_session(logged_in: bool, stored: Option<&str>) -> (r: SessionRestore)
    ensures
        r matches SessionRestore::Resumed(mgr) ==> logged_in && mgr@.wf() && (stored matches Some(s)
            && s@ == spec_encode(StateView::Authorized(mgr@))),
        forall|a: AccountView|
            (logged_in && a.wf() && (stored matches Some(s) && s@ == spec_encode(
                StateView::Authorized(a),
            ))) ==> (r matches SessionRestore::Resumed(mgr) && mgr@ == a),
        r matches SessionRestore::Fresh { clear_stored } ==> clear_stored == logged_in,
{
    if !logged_in {
        return SessionRestore::Fresh { clear_stored: false };
    }
    match stored {
        None => SessionRestore::Fresh { clear_stored: true },
        Some(s) => {
            let decoded = decode_session(s);
            match decoded {
                Some(UserState::Authorized(mgr)) => {
                    proof {
                        assert forall|a: AccountView|
                            a.wf() && s@ == spec_encode(StateView::Authorized(a)) implies mgr@
                            == a by {
                            assert(StateView::Authorized(a).wf());
                            assert(decoded matches Some(st) && st@ == StateView::Authorized(a));
                        }
                    }
                    SessionRestore::Resumed(mgr)
                },
                _ => {
                    proof {
                        assert forall|a: AccountView|
                            a.wf() && s@ == spec_encode(StateView::Authorized(a)) implies false by {
                            assert(StateView::Authorized(a).wf());
                            assert(decoded matches Some(st) && st@ == StateView::Authorized(a));
                        }
                    }
                    SessionRestore::Fresh { clear_stored: true }
                },
            }
        },
    }
}

} // verus!

