use vstd::prelude::*;

verus! {

/// A port specification as written on the command line: one port, or an
/// inclusive range.  A range always has `start < end`; a textual range with
/// equal bounds collapses to `Single` at parse time.
#[derive(Debug, Clone, Copy, PartialEq, Eq, Structural)]
pub enum PortArg {
    Single(u16),
    Range(u16, u16),
}

pub open spec fn is_digit(c: char) -> bool {
    ('0' as u32) <= (c as u32) && (c as u32) <= ('9' as u32)
}

pub open spec fn digit_val(c: char) -> int {
    (c as u32) - ('0' as u32)
}

pub open spec fn all_digits(s: Seq<char>) -> bool {
    forall|i: int| 0 <= i < s.len() ==> is_digit(#[trigger] s[i])
}

/// The numeric value of a digit string, most significant digit first.
pub open spec fn digits_val(s: Seq<char>) -> int
    decreases s.len(),
{
    if s.len() == 0 {
        0
    } else {
        digits_val(s.drop_last()) * 10 + digit_val(s.last())
    }
}

/// The token after an optional leading plus sign, which `str::parse` for
/// unsigned integers accepts.
pub open spec fn unsigned_body(s: Seq<char>) -> Seq<char> {
    if s.len() > 0 && s[0] == '+' {
        s.drop_first()
    } else {
        s
    }
}

/// Does `s` read as an unsigned decimal integer no greater than `max`?
pub open spec fn is_uint_token(s: Seq<char>, max: int) -> bool {
    let b = unsigned_body(s);
    b.len() > 0 && all_digits(b) && digits_val(b) <= max
}

/// The value of a token accepted by `is_uint_token`.
pub open spec fn uint_token_val(s: Seq<char>) -> int {
    digits_val(unsigned_body(s))
}

proof fn lemma_digits_val_nonneg(s: Seq<char>)
    requires
        all_digits(s),
    ensures
        digits_val(s) >= 0,
    decreases s.len(),
{
    if s.len() > 0 {
        assert(all_digits(s.drop_last())) by {
            assert(forall|i: int| 0 <= i < s.len() - 1 ==> s.drop_last()[i] == s[i]);
        }
        lemma_digits_val_nonneg(s.drop_last());
        assert(is_digit(s.last()));
    }
}

/// A digit string is worth at least any of its prefixes.
proof fn lemma_digits_val_prefix(s: Seq<char>, i: int)
    requires
        all_digits(s),
        0 <= i <= s.len(),
    ensures
        digits_val(s.take(i)) <= digits_val(s),
    decreases s.len() - i,
{
    if i < s.len() {
        let t = s.take(i + 1);
        assert(t.drop_last() =~= s.take(i));
        assert(t.last() == s[i]);
        assert(all_digits(s.take(i))) by {
            assert(forall|j: int| 0 <= j < i ==> s.take(i)[j] == s[j]);
        }
        lemma_digits_val_nonneg(s.take(i));
        assert(is_digit(s[i]));
        assert(digits_val(s.take(i)) <= digits_val(s.take(i + 1)));
        lemma_digits_val_prefix(s, i + 1);
    } else {
        assert(s.take(i) =~= s);
    }
}

/// Parses a decimal unsigned-integer token (optional leading `+`),
/// rejecting anything malformed and any value above `max`.
pub fn parse_decimal(s: &str, max: u64) -> (r: Option<u64>)
    ensures
        match r {
            Some(v) => is_uint_token(s@, max as int) && v == uint_token_val(s@),
            None => !is_uint_token(s@, max as int),
        },
{
    let len = s.unicode_len();
    let mut i: usize = 0;
    if len > 0 && s.get_char(0) == '+' {
        i = 1;
    }
    let ghost b = unsigned_body(s@);
    proof {
        assert(b =~= s@.skip(i as int));
    }
    if i >= len {
        assert(b.len() == 0);
        return None;
    }
    let mut acc: u64 = 0;
    let mut j: usize = i;
    while j < len
        invariant
            i <= j <= len,
            len == s@.len(),
            b == unsigned_body(s@),
            b =~= s@.skip(i as int),
            all_digits(b.take(j - i)),
            acc == digits_val(b.take(j - i)),
            acc <= max,
        decreases len - j,
    {
        let c = s.get_char(j);
        let cu = c as u32;
        proof {
            assert(b[j - i] == s@[j as int]);
        }
        if cu < 48 || cu > 57 {
            proof {
                assert(!is_digit(b[j - i]));
            }
            return None;
        }
        let d = (cu - 48) as u64;
        let q = max / 10;
        let rem = max % 10;
        proof {
            vstd::arithmetic::div_mod::lemma_fundamental_div_mod(max as int, 10);
        }
        let ghost t = b.take(j - i + 1);
        proof {
            assert(t.drop_last() =~= b.take(j - i));
            assert(t.last() == b[j - i]);
            assert(digits_val(t) == acc * 10 + d);
        }
        if acc > q || (acc == q && d > rem) {
            proof {
                assert(digits_val(t) > max);
                if all_digits(b) {
                    lemma_digits_val_prefix(b, j - i + 1);
                }
            }
            return None;
        }
        acc = acc * 10 + d;
        j = j + 1;
        proof {
            assert(all_digits(t)) by {
                assert(forall|k: int| 0 <= k < t.len() - 1 ==> t[k] == t.drop_last()[k]);
            }
        }
    }
    proof {
        assert(b.take(j - i) =~= b);
    }
    Some(acc)
}

/// Does `s` read as a 16-bit port number?
pub open spec fn is_u16_token(s: Seq<char>) -> bool {
    is_uint_token(s, u16::MAX as int)
}

fn parse_u16(s: &str) -> (r: Option<u16>)
    ensures
        match r {
            Some(v) => is_u16_token(s@) && v == uint_token_val(s@),
            None => !is_u16_token(s@),
        },
{
    match parse_decimal(s, 65535u64) {
        Some(v) => Some(v as u16),
        None => None,
    }
}

/// How many dashes a token holds.
pub open spec fn dash_count(s: Seq<char>) -> int
    decreases s.len(),
{
    if s.len() == 0 {
        0
    } else {
        dash_count(s.drop_last()) + if s.last() == '-' {
            1int
        } else {
            0int
        }
    }
}

/// The position of the first dash.
pub open spec fn first_dash(s: Seq<char>) -> int
    decreases s.len(),
{
    if s.len() == 0 {
        0
    } else if s.first() == '-' {
        0
    } else {
        1 + first_dash(s.drop_first())
    }
}

proof fn lemma_first_dash_at(s: Seq<char>, f: int)
    requires
        0 <= f < s.len(),
        s[f] == '-',
        forall|j: int| 0 <= j < f ==> s[j] != '-',
    ensures
        first_dash(s) == f,
    decreases f,
{
    if f > 0 {
        assert(forall|j: int| 0 <= j < f - 1 ==> s.drop_first()[j] == s[j + 1]);
        lemma_first_dash_at(s.drop_first(), f - 1);
    }
}

/// The parse of one port token: with no dash, a plain port number; with one
/// dash, two port numbers making a range when the first is smaller, a single
/// port when they are equal; everything else is rejected.
pub open spec fn port_spec_of(s: Seq<char>) -> Option<PortArg> {
    if dash_count(s) == 0 {
        if is_u16_token(s) {
            Some(PortArg::Single(uint_token_val(s) as u16))
        } else {
            None
        }
    } else if dash_count(s) == 1 {
        let a = s.take(first_dash(s));
        let b = s.skip(first_dash(s) + 1);
        if is_u16_token(a) && is_u16_token(b) {
            if uint_token_val(a) < uint_token_val(b) {
                Some(PortArg::Range(uint_token_val(a) as u16, uint_token_val(b) as u16))
            } else if uint_token_val(a) == uint_token_val(b) {
                Some(PortArg::Single(uint_token_val(a) as u16))
            } else {
                None
            }
        } else {
            None
        }
    } else {
        None
    }
}

/// Parses one port token.  A rejected token is handed back itself as the
/// error value.
pub fn parse_port(port: &str) -> (r: Result<PortArg, String>)
    ensures
        match port_spec_of(port@) {
            Some(pa) => r matches Ok(p) && p == pa,
            None => r matches Err(e) && e@ == port@,
        },
{
    let len = port.unicode_len();
    let mut count: usize = 0;
    let mut first: usize = 0;
    let mut i: usize = 0;
    while i < len
        invariant
            i <= len,
            len == port@.len(),
            count <= i,
            count == dash_count(port@.take(i as int)),
            count > 0 ==> first < i && port@[first as int] == '-' && forall|j: int|
                0 <= j < first ==> port@[j] != '-',
            count == 0 ==> forall|j: int| 0 <= j < i ==> port@[j] != '-',
        decreases len - i,
    {
        let ghost t = port@.take(i + 1);
        proof {
            assert(t.drop_last() =~= port@.take(i as int));
            assert(t.last() == port@[i as int]);
        }
        if port.get_char(i) == '-' {
            if count == 0 {
                first = i;
            }
            count = count + 1;
        }
        i = i + 1;
    }
    proof {
        assert(port@.take(len as int) =~= port@);
    }
    if count == 0 {
        match parse_u16(port) {
            Some(v) => Ok(PortArg::Single(v)),
            None => Err(port.to_owned()),
        }
    } else if count == 1 {
        proof {
            lemma_first_dash_at(port@, first as int);
        }
        let a = port.substring_char(0, first);
        let b = port.substring_char(first + 1, len);
        proof {
            assert(a@ =~= port@.take(first as int));
            assert(b@ =~= port@.skip(first as int + 1));
        }
        match (parse_u16(a), parse_u16(b)) {
            (Some(va), Some(vb)) => {
                if va < vb {
                    Ok(PortArg::Range(va, vb))
                } else if va == vb {
                    Ok(PortArg::Single(va))
                } else {
                    Err(port.to_owned())
                }
            },
            _ => Err(port.to_owned()),
        }
    } else {
        Err(port.to_owned())
    }
}

/// The specs of the tokens that parse, in input order.
pub open spec fn specs_of(tokens: Seq<Seq<char>>) -> Seq<PortArg>
    decreases tokens.len(),
{
    if tokens.len() == 0 {
        Seq::empty()
    } else {
        let rest = specs_of(tokens.drop_last());
        match port_spec_of(tokens.last()) {
            Some(pa) => rest.push(pa),
            None => rest,
        }
    }
}

/// The tokens that do not parse, in input order.
pub open spec fn errors_of(tokens: Seq<Seq<char>>) -> Seq<Seq<char>>
    decreases tokens.len(),
{
    if tokens.len() == 0 {
        Seq::empty()
    } else {
        let rest = errors_of(tokens.drop_last());
        match port_spec_of(tokens.last()) {
            Some(_) => rest,
            None => rest.push(tokens.last()),
        }
    }
}

/// Partitions the tokens into parsed specs and rejected tokens, each side
/// keeping the input order.
pub fn parse_ports(ports: Vec<&str>) -> (r: (Vec<PortArg>, Vec<String>))
    ensures
        r.0@ == specs_of(ports.deep_view()),
        r.1.deep_view() == errors_of(ports.deep_view()),
{
    let ghost toks = ports.deep_view();
    let mut specs: Vec<PortArg> = Vec::new();
    let mut errors: Vec<String> = Vec::new();
    let mut i: usize = 0;
    while i < ports.len()
        invariant
            i <= ports@.len(),
            toks == ports.deep_view(),
            toks.len() == ports@.len(),
            forall|k: int| 0 <= k < toks.len() ==> toks[k] == ports@[k]@,
            specs@ == specs_of(toks.take(i as int)),
            errors.deep_view() == errors_of(toks.take(i as int)),
        decreases ports@.len() - i,
    {
        let ghost t = toks.take(i + 1);
        proof {
            assert(t.drop_last() =~= toks.take(i as int));
            assert(t.last() == toks[i as int]);
        }
        let ghost old_errors = errors.deep_view();
        match parse_port(ports[i]) {
            Ok(pa) => specs.push(pa),
            Err(e) => {
                errors.push(e);
                proof {
                    assert(errors.deep_view() =~= old_errors.push(toks[i as int]));
                }
            },
        }
        i = i + 1;
    }
    proof {
        assert(toks.take(i as int) =~= toks);
    }
    (specs, errors)
}

/// Accepts exactly the tokens that read as a positive machine-word integer —
/// zero concurrency could never make progress; a rejected token is handed
/// back itself as the error value.
pub fn validate_concurrency(concurrency: String) -> (r: Result<(), String>)
    ensures
        r is Ok <==> is_uint_token(concurrency@, usize::MAX as int) && uint_token_val(
            concurrency@,
        ) >= 1,
        r matches Err(e) ==> e@ == concurrency@,
{
    proof {
        assert(usize::MAX as u64 as int == usize::MAX as int);
    }
    match parse_decimal(concurrency.as_str(), usize::MAX as u64) {
        Some(v) => if v >= 1 {
            Ok(())
        } else {
            Err(concurrency)
        },
        None => Err(concurrency),
    }
}

/// Accepts exactly the tokens that read as a positive 64-bit integer — a
/// zero timeout would let no handshake ever complete; a rejected token is
/// handed back itself as the error value.
pub fn validate_timeout(timeout_ms: String) -> (r: Result<(), String>)
    ensures
        r is Ok <==> is_uint_token(timeout_ms@, u64::MAX as int) && uint_token_val(timeout_ms@)
            >= 1,
        r matches Err(e) ==> e@ == timeout_ms@,
{
    match parse_decimal(timeout_ms.as_str(), u64::MAX) {
        Some(v) => if v >= 1 {
            Ok(())
        } else {
            Err(timeout_ms)
        },
        None => Err(timeout_ms),
    }
}

} // verus!
