//! Upstream endpoint addresses and the `host:port` address grammar.
//!
//! An upstream address as carried by control-plane events is a single string
//! `host:port`; static configuration declares the two parts separately. The
//! grammar accepted here: the part before the last `:` is the host text and
//! must be non-empty, the part after it is one to five decimal digits whose
//! value fits a port number.

use vstd::prelude::*;

verus! {

use vstd::string::StrSliceExecFns;
use vstd::string::StringExecFns;

/// Mathematical value of one upstream address.
pub ghost struct AddrModel {
    pub ip: Seq<char>,
    pub port: u16,
}

/// One upstream endpoint address: host or IP text plus a port.
pub struct UpstreamAddr {
    pub ip: String,
    pub port: u16,
}

impl View for UpstreamAddr {
    type V = AddrModel;

    open spec fn view(&self) -> AddrModel {
        AddrModel { ip: self.ip@, port: self.port }
    }
}

impl Clone for UpstreamAddr {
    fn clone(&self) -> (r: Self)
        ensures
            r@ == self@,
    {
        UpstreamAddr { ip: self.ip.clone(), port: self.port }
    }
}

/// Address equality: identity of a backend is its address alone.
pub fn addr_eq(a: &UpstreamAddr, b: &UpstreamAddr) -> (r: bool)
    ensures
        r == (a@ == b@),
{
    let same = a.ip == b.ip && a.port == b.port;
    proof {
        if same {
            assert(a@ == b@);
        }
    }
    same
}

pub open spec fn is_digit(c: char) -> bool {
    '0' <= c && c <= '9'
}

pub open spec fn digit_val(c: char) -> int {
    c as int - '0' as int
}

pub open spec fn all_digits(s: Seq<char>) -> bool {
    forall|i: int| 0 <= i < s.len() ==> is_digit(#[trigger] s[i])
}

/// Numeric value of a digit string, most significant digit first.
pub open spec fn digits_val(s: Seq<char>) -> int
    decreases s.len(),
{
    if s.len() == 0 {
        0
    } else {
        digits_val(s.drop_last()) * 10 + digit_val(s.last())
    }
}

pub open spec fn pow10(n: nat) -> int
    decreases n,
{
    if n == 0 {
        1
    } else {
        10 * pow10((n - 1) as nat)
    }
}

pub proof fn lemma_digits_val_bound(s: Seq<char>)
    requires
        all_digits(s),
    ensures
        0 <= digits_val(s) < pow10(s.len()),
    decreases s.len(),
{
    if s.len() == 0 {
    } else {
        assert(all_digits(s.drop_last()));
        lemma_digits_val_bound(s.drop_last());
        assert(is_digit(s.last()));
        assert(pow10(s.len()) == 10 * pow10((s.len() - 1) as nat));
    }
}

/// Index of the last `:` in `s`, or `-1` if there is none.
pub open spec fn last_colon(s: Seq<char>) -> int
    decreases s.len(),
{
    if s.len() == 0 {
        -1
    } else if s.last() == ':' {
        s.len() - 1
    } else {
        last_colon(s.drop_last())
    }
}

/// The address grammar: `host:port` where the host part (up to the last `:`)
/// is non-empty and the port part is one to five digits valued at most 65535.
pub open spec fn spec_parse_addr(s: Seq<char>) -> Option<AddrModel> {
    let i = last_colon(s);
    if i < 1 {
        None
    } else {
        let port_part = s.subrange(i + 1, s.len() as int);
        if 1 <= port_part.len() && port_part.len() <= 5 && all_digits(port_part) && digits_val(
            port_part,
        ) <= 65535 {
            Some(AddrModel { ip: s.subrange(0, i), port: digits_val(port_part) as u16 })
        } else {
            None
        }
    }
}

pub open spec fn addr_opt_model(r: Option<UpstreamAddr>) -> Option<AddrModel> {
    match r {
        Some(a) => Some(a@),
        None => None,
    }
}

/// Parses one upstream address string against the `host:port` grammar.
#[verifier::loop_isolation(false)]
pub fn parse_addr(s: &str) -> (r: Option<UpstreamAddr>)
    ensures
        addr_opt_model(r) == spec_parse_addr(s@),
{
    let n = s.unicode_len();
    let mut colon: usize = 0;
    let mut has_colon = false;
    let mut i: usize = 0;
    while i < n
        invariant
            i <= n,
            n == s@.len(),
            has_colon ==> colon < i,
            last_colon(s@.take(i as int)) == (if has_colon {
                colon as int
            } else {
                -1int
            }),
        decreases n - i,
    {
        let c = s.get_char(i);
        proof {
            assert(s@.take(i + 1).drop_last() =~= s@.take(i as int));
            assert(s@.take(i + 1).last() == s@[i as int]);
        }
        if c == ':' {
            colon = i;
            has_colon = true;
        }
        i += 1;
    }
    proof {
        assert(s@.take(n as int) =~= s@);
    }
    if !has_colon || colon == 0 {
        return None;
    }
    let plen = n - colon - 1;
    if plen == 0 || plen > 5 {
        return None;
    }
    let ghost port_all: Seq<char> = s@.subrange(colon as int + 1, n as int);
    let mut val: u32 = 0;
    let mut j: usize = colon + 1;
    while j < n
        invariant
            colon + 1 <= j <= n,
            n == s@.len(),
            n - colon - 1 <= 5,
            colon < n,
            all_digits(s@.subrange(colon as int + 1, j as int)),
            val == digits_val(s@.subrange(colon as int + 1, j as int)),
            val < 100000,
        decreases n - j,
    {
        let c = s.get_char(j);
        if c < '0' || c > '9' {
            proof {
                let k: int = j as int - colon as int - 1;
                assert(port_all == s@.subrange(colon as int + 1, n as int));
                assert(port_all.len() == n as int - colon as int - 1);
                assert(0 <= k < port_all.len());
                assert(port_all[k] == s@[colon as int + 1 + k]);
                assert(colon as int + 1 + k == j as int);
                assert(!is_digit(port_all[k]));
                assert(!all_digits(port_all));
            }
            return None;
        }
        proof {
            let prefix = s@.subrange(colon as int + 1, j as int);
            let next = s@.subrange(colon as int + 1, j as int + 1);
            assert(next.drop_last() =~= prefix);
            assert(next.last() == s@[j as int]);
            lemma_digits_val_bound(next);
            assert(pow10(5) == 100000) by {
                reveal_with_fuel(pow10, 6);
            }
            assert(next.len() <= 5);
            if next.len() < 5 {
                assert(pow10(next.len()) <= pow10(5)) by {
                    reveal_with_fuel(pow10, 6);
                }
            }
        }
        val = val * 10 + (c as u32 - '0' as u32);
        j += 1;
    }
    proof {
        assert(s@.subrange(colon as int + 1, n as int) =~= port_all);
    }
    if val > 65535 {
        return None;
    }
    let host_str = s.substring_char(0, colon);
    let ip = host_str.to_owned();
    let r = Some(UpstreamAddr { ip, port: val as u16 });
    proof {
        assert(last_colon(s@) == colon as int);
        assert(spec_parse_addr(s@) is Some);
        assert(addr_opt_model(r)->Some_0.ip =~= spec_parse_addr(s@)->Some_0.ip);
    }
    r
}

} // verus!
