//! Client IP extraction from trusted forwarding headers.
//!
//! The ordered header-name list is walked; the first name any header
//! matches (ASCII case-insensitively) is chosen. Of that header's
//! values the first is taken in recursive mode, else the last; the
//! value splits on commas, again first or last; the token is trimmed
//! and parsed as an IP address. Any failure yields nothing and the
//! caller falls back to the socket address.

use crate::bytes::{split_bytes, split_bytes_exec};
use crate::ip::{parse_ip, spec_parse_ip, IpAddress};
use vstd::prelude::*;

verus! {

/// A character folded to lowercase over the ASCII letters, as a code
/// point.
pub open spec fn lower32(c: char) -> u32 {
    if 'A' <= c <= 'Z' {
        (c as u32 + 32) as u32
    } else {
        c as u32
    }
}

/// Header names match ASCII case-insensitively.
pub open spec fn name_matches(a: Seq<char>, b: Seq<char>) -> bool {
    a.len() == b.len() && forall|i: int| 0 <= i < a.len() ==> lower32(#[trigger] a[i]) == lower32(
        b[i],
    )
}

/// The values of every header whose name matches, in order.
pub open spec fn header_values(hv: Seq<(Seq<char>, Seq<u8>)>, name: Seq<char>) -> Seq<Seq<u8>>
    decreases hv.len(),
{
    if hv.len() == 0 {
        Seq::empty()
    } else if name_matches(hv[0].0, name) {
        seq![hv[0].1] + header_values(hv.drop_first(), name)
    } else {
        header_values(hv.drop_first(), name)
    }
}

/// The index of the first wanted name some header matches, or minus
/// one.
pub open spec fn choose_name(hv: Seq<(Seq<char>, Seq<u8>)>, names: Seq<Seq<char>>) -> int
    decreases names.len(),
{
    if names.len() == 0 {
        -1
    } else if header_values(hv, names[0]).len() > 0 {
        0
    } else if choose_name(hv, names.drop_first()) == -1 {
        -1
    } else {
        choose_name(hv, names.drop_first()) + 1
    }
}

/// A byte a header value may hold visibly: printable ASCII or tab.
pub open spec fn is_visible_byte(b: u8) -> bool {
    (32 <= b < 127) || b == 9
}

/// A header value is usable when every byte is visible.
pub open spec fn all_visible(v: Seq<u8>) -> bool {
    forall|i: int| 0 <= i < v.len() ==> is_visible_byte(#[trigger] v[i])
}

/// Blank bytes trimmed around a forwarded address: space and tab.
pub open spec fn is_blank(b: u8) -> bool {
    b == 32 || b == 9
}

pub open spec fn trim_bytes_front(s: Seq<u8>) -> Seq<u8>
    decreases s.len(),
{
    if s.len() > 0 && is_blank(s[0]) {
        trim_bytes_front(s.drop_first())
    } else {
        s
    }
}

pub open spec fn trim_bytes_back(s: Seq<u8>) -> Seq<u8>
    decreases s.len(),
{
    if s.len() > 0 && is_blank(s.last()) {
        trim_bytes_back(s.drop_last())
    } else {
        s
    }
}

pub open spec fn trim_bytes(s: Seq<u8>) -> Seq<u8> {
    trim_bytes_back(trim_bytes_front(s))
}

/// What the whole extraction yields, from the headers, the trusted
/// name list and the recursive flag.
pub open spec fn client_ip_spec(
    hv: Seq<(Seq<char>, Seq<u8>)>,
    names: Seq<Seq<char>>,
    recursive: bool,
) -> Option<IpAddress> {
    let ni = choose_name(hv, names);
    if ni == -1 {
        None
    } else {
        let vals = header_values(hv, names[ni]);
        let v = if recursive {
            vals[0]
        } else {
            vals.last()
        };
        if !all_visible(v) {
            None
        } else {
            let toks = split_bytes(v, 44);
            let t = if recursive {
                toks[0]
            } else {
                toks.last()
            };
            spec_parse_ip(trim_bytes(t))
        }
    }
}

/// The headers in the mathematical model: name text and value bytes.
pub open spec fn headers_view(h: Seq<(String, Vec<u8>)>) -> Seq<(Seq<char>, Seq<u8>)> {
    Seq::new(h.len(), |i: int| (h[i].0@, h[i].1@))
}

/// The trusted names in the mathematical model.
pub open spec fn names_view(n: Seq<String>) -> Seq<Seq<char>> {
    Seq::new(n.len(), |i: int| n[i]@)
}

proof fn lemma_header_values_none(hv: Seq<(Seq<char>, Seq<u8>)>, name: Seq<char>)
    requires
        forall|i: int| 0 <= i < hv.len() ==> !name_matches((#[trigger] hv[i]).0, name),
    ensures
        header_values(hv, name).len() == 0,
    decreases hv.len(),
{
    if hv.len() > 0 {
        assert forall|i: int| 0 <= i < hv.drop_first().len() implies !name_matches(
            (#[trigger] hv.drop_first()[i]).0,
            name,
        ) by {
            assert(hv.drop_first()[i] == hv[i + 1]);
        }
        lemma_header_values_none(hv.drop_first(), name);
    }
}

/// The first matching header gives the first value.
proof fn lemma_header_values_first(hv: Seq<(Seq<char>, Seq<u8>)>, name: Seq<char>, f: int)
    requires
        0 <= f < hv.len(),
        name_matches(hv[f].0, name),
        forall|i: int| 0 <= i < f ==> !name_matches((#[trigger] hv[i]).0, name),
    ensures
        header_values(hv, name).len() > 0,
        header_values(hv, name)[0] == hv[f].1,
    decreases hv.len(),
{
    let d = hv.drop_first();
    assert(forall|i: int| 0 <= i < d.len() ==> #[trigger] d[i] == hv[i + 1]);
    if f > 0 {
        lemma_header_values_first(d, name, f - 1);
    }
}

/// The last matching header gives the last value.
proof fn lemma_header_values_last(hv: Seq<(Seq<char>, Seq<u8>)>, name: Seq<char>, l: int)
    requires
        0 <= l < hv.len(),
        name_matches(hv[l].0, name),
        forall|i: int| l < i < hv.len() ==> !name_matches((#[trigger] hv[i]).0, name),
    ensures
        header_values(hv, name).len() > 0,
        header_values(hv, name).last() == hv[l].1,
    decreases hv.len(),
{
    let d = hv.drop_first();
    assert(forall|i: int| 0 <= i < d.len() ==> #[trigger] d[i] == hv[i + 1]);
    if l == 0 {
        if name_matches(hv[0].0, name) {
            assert forall|i: int| 0 <= i < d.len() implies !name_matches(
                (#[trigger] d[i]).0,
                name,
            ) by {}
            lemma_header_values_none(d, name);
            assert(header_values(hv, name) =~= seq![hv[0].1]);
        }
    } else {
        lemma_header_values_last(d, name, l - 1);
        assert(header_values(d, name).len() > 0);
        if name_matches(hv[0].0, name) {
            assert((seq![hv[0].1] + header_values(d, name)).last() == header_values(
                d,
                name,
            ).last());
        }
    }
}

proof fn lemma_choose_name_unique(hv: Seq<(Seq<char>, Seq<u8>)>, names: Seq<Seq<char>>, p: int)
    requires
        0 <= p < names.len(),
        header_values(hv, names[p]).len() > 0,
        forall|i: int| 0 <= i < p ==> header_values(hv, #[trigger] names[i]).len() == 0,
    ensures
        choose_name(hv, names) == p,
    decreases names.len(),
{
    if p > 0 {
        assert(names.drop_first()[p - 1] == names[p]);
        assert forall|i: int| 0 <= i < p - 1 implies header_values(
            hv,
            #[trigger] names.drop_first()[i],
        ).len() == 0 by {
            assert(names.drop_first()[i] == names[i + 1]);
        }
        lemma_choose_name_unique(hv, names.drop_first(), p - 1);
    }
}

proof fn lemma_choose_name_absent(hv: Seq<(Seq<char>, Seq<u8>)>, names: Seq<Seq<char>>)
    requires
        forall|i: int| 0 <= i < names.len() ==> header_values(hv, #[trigger] names[i]).len() == 0,
    ensures
        choose_name(hv, names) == -1,
    decreases names.len(),
{
    if names.len() > 0 {
        assert forall|i: int| 0 <= i < names.drop_first().len() implies header_values(
            hv,
            #[trigger] names.drop_first()[i],
        ).len() == 0 by {
            assert(names.drop_first()[i] == names[i + 1]);
        }
        lemma_choose_name_absent(hv, names.drop_first());
    }
}

/// Whether two header names match, ASCII case-insensitively.
fn name_matches_exec(a: &str, b: &str) -> (r: bool)
    ensures
        r == name_matches(a@, b@),
{
    let an = a.unicode_len();
    let bn = b.unicode_len();
    if an != bn {
        return false;
    }
    let mut i: usize = 0;
    while i < an
        invariant
            0 <= i <= an,
            an == a@.len(),
            an == b@.len(),
            forall|j: int| 0 <= j < i ==> lower32(#[trigger] a@[j]) == lower32(b@[j]),
        decreases an - i,
    {
        let ca = a.get_char(i);
        let cb = b.get_char(i);
        let la: u32 = if 'A' <= ca && ca <= 'Z' {
            ca as u32 + 32
        } else {
            ca as u32
        };
        let lb: u32 = if 'A' <= cb && cb <= 'Z' {
            cb as u32 + 32
        } else {
            cb as u32
        };
        if la != lb {
            return false;
        }
        i += 1;
    }
    true
}

/// Trim blank bytes around a forwarded address token.
fn trim_bytes_exec(s: &[u8]) -> (r: Vec<u8>)
    ensures
        r@ == trim_bytes(s@),
{
    let n = s.len();
    let mut i: usize = 0;
    while i < n && (s[i] == 32 || s[i] == 9)
        invariant
            0 <= i <= n,
            n == s@.len(),
            forall|m: int| 0 <= m < i ==> is_blank(#[trigger] s@[m]),
        decreases n - i,
    {
        i += 1;
    }
    let mut j: usize = n;
    while j > i && (s[j - 1] == 32 || s[j - 1] == 9)
        invariant
            i <= j <= n,
            n == s@.len(),
            forall|m: int| 0 <= m < i ==> is_blank(#[trigger] s@[m]),
            i < n ==> !is_blank(s@[i as int]),
            forall|m: int| j <= m < n ==> is_blank(#[trigger] s@[m]),
        decreases j,
    {
        j -= 1;
    }
    let r = crate::bytes::subrange_vec(s, i, j);
    proof {
        lemma_trim_bytes_front_at(s@, i as int);
        let t = s@.skip(i as int);
        if j == i {
            assert forall|m: int| 0 <= m < t.len() implies is_blank(#[trigger] t[m]) by {
                assert(t[m] == s@[i + m]);
            }
            lemma_trim_bytes_back_at(t, 0);
            assert(t.take(0) =~= s@.subrange(i as int, j as int));
        } else {
            assert forall|m: int| j - i <= m < t.len() implies is_blank(#[trigger] t[m]) by {
                assert(t[m] == s@[i + m]);
            }
            assert(t[j - i - 1] == s@[j - 1]);
            lemma_trim_bytes_back_at(t, j - i);
            assert(t.take(j - i) =~= s@.subrange(i as int, j as int));
        }
    }
    r
}

proof fn lemma_trim_bytes_front_at(s: Seq<u8>, i: int)
    requires
        0 <= i <= s.len(),
        forall|m: int| 0 <= m < i ==> is_blank(#[trigger] s[m]),
        i < s.len() ==> !is_blank(s[i]),
    ensures
        trim_bytes_front(s) == s.skip(i),
    decreases s.len(),
{
    if s.len() > 0 && is_blank(s[0]) {
        assert(i >= 1);
        assert forall|m: int| 0 <= m < i - 1 implies is_blank(#[trigger] s.drop_first()[m]) by {
            assert(s.drop_first()[m] == s[m + 1]);
        }
        if i - 1 < s.drop_first().len() {
            assert(s.drop_first()[i - 1] == s[i]);
        }
        lemma_trim_bytes_front_at(s.drop_first(), i - 1);
        assert(s.drop_first().skip(i - 1) =~= s.skip(i));
    } else {
        assert(i == 0);
        assert(s.skip(0) =~= s);
    }
}

proof fn lemma_trim_bytes_back_at(s: Seq<u8>, j: int)
    requires
        0 <= j <= s.len(),
        forall|m: int| j <= m < s.len() ==> is_blank(#[trigger] s[m]),
        j > 0 ==> !is_blank(s[j - 1]),
    ensures
        trim_bytes_back(s) == s.take(j),
    decreases s.len(),
{
    if s.len() > 0 && is_blank(s.last()) {
        assert(j < s.len());
        assert forall|m: int| j <= m < s.drop_last().len() implies is_blank(
            #[trigger] s.drop_last()[m],
        ) by {
            assert(s.drop_last()[m] == s[m]);
        }
        lemma_trim_bytes_back_at(s.drop_last(), j);
        assert(s.drop_last().take(j) =~= s.take(j));
    } else {
        assert(j == s.len());
        assert(s.take(j) =~= s);
    }
}

/// Extract the client IP address from trusted forwarding headers.
#[verifier::rlimit(100)]
#[verifier::spinoff_prover]
#[verifier::loop_isolation(false)]
pub fn client_ip(
    headers: &Vec<(String, Vec<u8>)>,
    header_names: &Vec<String>,
    recursive: bool,
) -> (r: Option<IpAddress>)
    ensures
        r == client_ip_spec(headers_view(headers@), names_view(header_names@), recursive),
{
    let ghost hv = headers_view(headers@);
    let ghost nv = names_view(header_names@);
    // Walk the trusted names; the first one with any matching header
    // value wins.
    let mut k: usize = 0;
    let nn = header_names.len();
    let hn = headers.len();
    while k < nn
        invariant
            0 <= k <= nn,
            nn == nv.len(),
            header_names@.len() == nn,
            hn == hv.len(),
            headers@.len() == hn,
            forall|i: int| 0 <= i < k ==> header_values(hv, #[trigger] nv[i]).len() == 0,
        decreases nn - k,
    {
        // Find the first and last headers matching this name.
        let mut first: usize = hn;
        let mut last: usize = hn;
        let mut h: usize = 0;
        while h < hn
            invariant
                0 <= h <= hn,
                hn == hv.len(),
                headers@.len() == hn,
                k < nn,
                nn == nv.len(),
                header_names@.len() == nn,
                first == hn ==> forall|i: int|
                    0 <= i < h ==> !name_matches((#[trigger] hv[i]).0, nv[k as int]),
                first < hn ==> first < h && name_matches(hv[first as int].0, nv[k as int])
                    && forall|i: int|
                    0 <= i < first ==> !name_matches((#[trigger] hv[i]).0, nv[k as int]),
                first <= hn,
                last <= hn,
                (first < hn) == (last < hn),
                last < hn ==> last < h && name_matches(hv[last as int].0, nv[k as int]) && forall|
                    i: int,
                |
                    last < i < h ==> !name_matches((#[trigger] hv[i]).0, nv[k as int]),
            decreases hn - h,
        {
            if name_matches_exec(headers[h].0.as_str(), header_names[k].as_str()) {
                if first == hn {
                    first = h;
                }
                last = h;
            }
            h += 1;
        }
        if first < hn {
            // This name is chosen; pick the first or last value.
            proof {
                lemma_header_values_first(hv, nv[k as int], first as int);
                lemma_header_values_last(hv, nv[k as int], last as int);
                lemma_choose_name_unique(hv, nv, k as int);
            }
            let value: &Vec<u8> = if recursive {
                &headers[first].1
            } else {
                &headers[last].1
            };
            // The header value must be visible ASCII throughout.
            let mut vi: usize = 0;
            let vn = value.len();
            while vi < vn
                invariant
                    0 <= vi <= vn,
                    vn == value@.len(),
                    forall|m: int| 0 <= m < vi ==> is_visible_byte(#[trigger] value@[m]),
                decreases vn - vi,
            {
                let b = value[vi];
                if !((32 <= b && b < 127) || b == 9) {
                    proof {
                        let name = nv[k as int];
                        let vals = header_values(hv, name);
                        assert(choose_name(hv, nv) == k as int);
                        let v = if recursive {
                            vals[0]
                        } else {
                            vals.last()
                        };
                        assert(v == value@);
                        assert(!is_visible_byte(v[vi as int]));
                        assert(!all_visible(v));
                        assert(client_ip_spec(hv, nv, recursive) is None);
                    }
                    return None;
                }
                vi += 1;
            }
            proof {
                assert(all_visible(value@));
            }
            // Split the forwarding chain on commas; pick first or last.
            let toks = split_bytes_exec(value.as_slice(), 44);
            proof {
                crate::bytes::lemma_split_tokens(value@, 44);
                assert(toks.deep_view().len() >= 1);
            }
            let tok: &Vec<u8> = if recursive {
                &toks[0]
            } else {
                &toks[toks.len() - 1]
            };
            proof {
                if recursive {
                    assert(tok@ =~= split_bytes(value@, 44)[0]);
                } else {
                    assert(tok@ =~= split_bytes(value@, 44).last());
                }
            }
            let trimmed = trim_bytes_exec(tok.as_slice());
            return parse_ip(trimmed.as_slice());
        }
        proof {
            assert forall|i: int| 0 <= i < hv.len() implies !name_matches(
                (#[trigger] hv[i]).0,
                nv[k as int],
            ) by {}
            lemma_header_values_none(hv, nv[k as int]);
        }
        k += 1;
    }
    proof {
        lemma_choose_name_absent(hv, nv);
        assert(client_ip_spec(hv, nv, recursive) is None);
    }
    None
}

} // verus!
