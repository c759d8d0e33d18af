//! The master's `run_id` parameter: a fresh unique identifier generated
//! at startup, with the node id taken from the machine's first MAC
//! address as reported by `ip link`. Parsing that report is verified
//! here; running the command and generating the identifier are not.

use vstd::prelude::*;

use crate::param_tree::PTree;
use crate::registry::Registry;
use crate::strutil::{spec_split, split_char, views_of};

verus! {

/// An ASCII whitespace character, as token separators in `ip link`
/// output.
pub open spec fn is_ws(c: char) -> bool {
    c == ' ' || c == '\n' || c == '\t' || c == '\r'
}

/// The whitespace-separated tokens of `s`, with `cur` the token read so
/// far.
pub open spec fn ws_tokens_acc(s: Seq<char>, cur: Seq<char>) -> Seq<Seq<char>>
    decreases s.len(),
{
    if s.len() == 0 {
        if cur.len() > 0 {
            seq![cur]
        } else {
            Seq::empty()
        }
    } else if is_ws(s[0]) {
        (if cur.len() > 0 {
            seq![cur]
        } else {
            Seq::<Seq<char>>::empty()
        }) + ws_tokens_acc(s.drop_first(), Seq::empty())
    } else {
        ws_tokens_acc(s.drop_first(), cur.push(s[0]))
    }
}

/// The whitespace-separated tokens of `s`.
pub open spec fn ws_tokens(s: Seq<char>) -> Seq<Seq<char>> {
    ws_tokens_acc(s, Seq::empty())
}

/// The token that follows the first `link/ether` token, if any.
pub open spec fn mac_token(ts: Seq<Seq<char>>) -> Option<Seq<char>>
    decreases ts.len(),
{
    if ts.len() == 0 {
        None
    } else if ts[0] == "link/ether"@ {
        if ts.len() >= 2 {
            Some(ts[1])
        } else {
            None
        }
    } else {
        mac_token(ts.drop_first())
    }
}

/// The value of a hexadecimal digit, or `-1`.
pub open spec fn hex_digit_val(c: char) -> int {
    if '0' <= c && c <= '9' {
        c as int - '0' as int
    } else if 'a' <= c && c <= 'f' {
        c as int - 'a' as int + 10
    } else if 'A' <= c && c <= 'F' {
        c as int - 'A' as int + 10
    } else {
        -1
    }
}

/// The value of a string of hexadecimal digits, most significant first.
pub open spec fn hex_value(p: Seq<char>) -> int
    decreases p.len(),
{
    if p.len() == 0 {
        0
    } else {
        hex_value(p.drop_last()) * 16 + hex_digit_val(p.last())
    }
}

/// A string that parses as one byte: non-empty hexadecimal digits whose
/// value fits.
pub open spec fn hex_byte_ok(p: Seq<char>) -> bool {
    &&& p.len() > 0
    &&& forall|i: int| 0 <= i < p.len() ==> hex_digit_val(#[trigger] p[i]) >= 0
    &&& hex_value(p) <= 255
}

/// The six bytes encoded by an `aa:bb:cc:dd:ee:ff`-shaped token, if it
/// has that shape.
pub open spec fn spec_mac_bytes(tok: Seq<char>) -> Option<Seq<u8>> {
    let ps = spec_split(tok, ':');
    if ps.len() == 6 && (forall|i: int| 0 <= i < 6 ==> hex_byte_ok(#[trigger] ps[i])) {
        Some(ps.map_values(|p: Seq<char>| hex_value(p) as u8))
    } else {
        None
    }
}

/// What the node id parser yields on `ip link` output: the bytes of the
/// token after the first `link/ether`, when both exist and parse.
pub open spec fn spec_node_id(s: Seq<char>) -> Option<Seq<u8>> {
    match mac_token(ws_tokens(s)) {
        None => None,
        Some(tok) => spec_mac_bytes(tok),
    }
}

/// A digit value never shrinks the accumulated value.
proof fn lemma_hex_value_monotone(p: Seq<char>, i: int)
    requires
        0 <= i <= p.len(),
        forall|j: int| 0 <= j < i ==> hex_digit_val(#[trigger] p[j]) >= 0,
    ensures
        hex_value(p.take(i)) >= 0,
        forall|j: int|
            0 <= j <= i ==> hex_value(p.take(i)) >= hex_value(#[trigger] p.take(j)),
    decreases i,
{
    if i == 0 {
        assert(p.take(0) =~= Seq::<char>::empty());
        assert(forall|j: int| 0 <= j <= 0 ==> hex_value(#[trigger] p.take(j)) <= hex_value(
            p.take(0),
        )) by {
            assert(p.take(0) =~= Seq::<char>::empty());
        }
    } else {
        lemma_hex_value_monotone(p, i - 1);
        assert(p.take(i).drop_last() =~= p.take(i - 1));
        assert(p.take(i).last() == p[i - 1]);
        assert(hex_value(p.take(i)) == hex_value(p.take(i - 1)) * 16 + hex_digit_val(p[i - 1]));
    }
}

/// Parses one hexadecimal byte.
fn parse_hex_byte(p: &str) -> (r: Option<u8>)
    ensures
        match r {
            Some(b) => hex_byte_ok(p@) && b as int == hex_value(p@),
            None => !hex_byte_ok(p@),
        },
{
    let n = p.unicode_len();
    if n == 0 {
        return None;
    }
    let mut val: u32 = 0;
    let mut i: usize = 0;
    proof {
        assert(p@.take(0) =~= Seq::<char>::empty());
    }
    #[verifier::loop_isolation(false)]
    while i < n
        invariant
            0 <= i <= n,
            val <= 255,
            val as int == hex_value(p@.take(i as int)),
            forall|j: int| 0 <= j < i ==> hex_digit_val(#[trigger] p@[j]) >= 0,
        decreases n - i,
    {
        let c = p.get_char(i);
        let d: u32 = if '0' <= c && c <= '9' {
            (c as u32) - ('0' as u32)
        } else if 'a' <= c && c <= 'f' {
            (c as u32) - ('a' as u32) + 10
        } else if 'A' <= c && c <= 'F' {
            (c as u32) - ('A' as u32) + 10
        } else {
            proof {
                assert(hex_digit_val(p@[i as int]) < 0);
            }
            return None;
        };
        proof {
            assert(d as int == hex_digit_val(p@[i as int]));
            assert(p@.take(i as int + 1).drop_last() =~= p@.take(i as int));
            assert(p@.take(i as int + 1).last() == p@[i as int]);
        }
        let next: u32 = val * 16 + d;
        if next > 255 {
            proof {
                if forall|j: int| 0 <= j < p@.len() ==> hex_digit_val(#[trigger] p@[j]) >= 0 {
                    lemma_hex_value_monotone(p@, n as int);
                    assert(p@.take(n as int) =~= p@);
                    assert(hex_value(p@) >= hex_value(p@.take(i as int + 1)));
                }
            }
            return None;
        }
        val = next;
        i += 1;
    }
    proof {
        assert(p@.take(n as int) =~= p@);
    }
    Some(val as u8)
}

/// The whitespace-separated tokens of `s`.
fn ws_split(s: &str) -> (r: Vec<String>)
    ensures
        views_of(r@) =~= ws_tokens(s@),
{
    let n = s.unicode_len();
    let mut out: Vec<String> = Vec::new();
    let mut start: usize = 0;
    let mut i: usize = 0;
    proof {
        assert(s@.skip(0) =~= s@);
        assert(s@.subrange(0, 0) =~= Seq::<char>::empty());
    }
    #[verifier::loop_isolation(false)]
    while i < n
        invariant
            0 <= start <= i <= n,
            n == s@.len(),
            forall|j: int| start <= j < i ==> !is_ws(s@[j]),
            ws_tokens(s@) =~= views_of(out@) + ws_tokens_acc(
                s@.skip(i as int),
                s@.subrange(start as int, i as int),
            ),
        decreases n - i,
    {
        let c = s.get_char(i);
        proof {
            assert(s@.skip(i as int)[0] == c);
            assert(s@.skip(i as int).drop_first() =~= s@.skip(i as int + 1));
        }
        if c == ' ' || c == '\n' || c == '\t' || c == '\r' {
            if i > start {
                let tok = s.substring_char(start, i).to_owned();
                proof {
                    assert(tok@ =~= s@.subrange(start as int, i as int));
                }
                out.push(tok);
            }
            proof {
                assert(s@.subrange(i as int + 1, i as int + 1) =~= Seq::<char>::empty());
                assert(ws_tokens(s@) =~= views_of(out@) + ws_tokens_acc(
                    s@.skip(i as int + 1),
                    s@.subrange(i as int + 1, i as int + 1),
                ));
            }
            start = i + 1;
        } else {
            proof {
                assert(s@.subrange(start as int, i as int + 1) =~= s@.subrange(
                    start as int,
                    i as int,
                ).push(s@[i as int]));
            }
        }
        i += 1;
    }
    if i > start {
        let tok = s.substring_char(start, i).to_owned();
        proof {
            assert(tok@ =~= s@.subrange(start as int, i as int));
        }
        out.push(tok);
    }
    proof {
        assert(s@.skip(n as int) =~= Seq::<char>::empty());
    }
    out
}

/// The machine's node id as reported by `ip link`: the six bytes of the
/// MAC address token that follows the first `link/ether` token.
pub fn node_id_from_ip_link(s: &str) -> (r: Option<Vec<u8>>)
    ensures
        match r {
            Some(mac) => spec_node_id(s@) == Some(mac@) && mac@.len() == 6,
            None => spec_node_id(s@) is None,
        },
{
    let tokens = ws_split(s);
    let ghost tv = views_of(tokens@);
    let mut i: usize = 0;
    proof {
        assert(tv.skip(0) =~= tv);
    }
    #[verifier::loop_isolation(false)]
    while i < tokens.len()
        invariant
            0 <= i <= tokens@.len(),
            mac_token(tv) == mac_token(tv.skip(i as int)),
        decreases tokens@.len() - i,
    {
        proof {
            assert(tv.skip(i as int)[0] == tv[i as int]);
            assert(tv.skip(i as int).drop_first() =~= tv.skip(i as int + 1));
        }
        if crate::strutil::str_eq(tokens[i].as_str(), "link/ether") {
            if i + 1 < tokens.len() {
                let tok = &tokens[i + 1];
                proof {
                    assert(tv.skip(i as int)[1] == tv[i as int + 1]);
                    assert(mac_token(tv) == Some(tok@));
                }
                let parts = split_char(tok.as_str(), ':');
                let ghost ps = spec_split(tok@, ':');
                if parts.len() != 6 {
                    return None;
                }
                let mut mac: Vec<u8> = Vec::new();
                let mut l: usize = 0;
                #[verifier::loop_isolation(false)]
                while l < 6
                    invariant
                        0 <= l <= 6,
                        mac@.len() == l,
                        forall|x: int|
                            0 <= x < l ==> hex_byte_ok(#[trigger] ps[x]) && mac@[x] as int
                                == hex_value(ps[x]),
                    decreases 6 - l,
                {
                    match parse_hex_byte(parts[l].as_str()) {
                        Some(b) => {
                            proof {
                                assert(parts@[l as int]@ == ps[l as int]);
                            }
                            mac.push(b);
                        },
                        None => {
                            proof {
                                assert(parts@[l as int]@ == ps[l as int]);
                                assert(!hex_byte_ok(ps[l as int]));
                            }
                            return None;
                        },
                    }
                    l += 1;
                }
                proof {
                    assert(mac@ =~= ps.map_values(|pc: Seq<char>| hex_value(pc) as u8));
                }
                return Some(mac);
            } else {
                return None;
            }
        }
        i += 1;
    }
    proof {
        assert(tv.skip(tokens@.len() as int) =~= Seq::<Seq<char>>::empty());
    }
    None
}

/// Relies on `uuid::Uuid::now_v1` and uuid's hyphenated `Display` form:
/// a fresh time-based identifier rendered as 36 characters.
#[verifier::external_body]
fn uuid_v1_string(node_id: &Vec<u8>) -> (r: String)
    requires
        node_id@.len() == 6,
    ensures
        r@.len() == 36,
{
    let node = [node_id[0], node_id[1], node_id[2], node_id[3], node_id[4], node_id[5]];
    uuid::Uuid::now_v1(&node).to_string()
}

/// A fresh registry for a master at the URL `uri`, its `run_id`
/// parameter seeded with a newly generated unique identifier. A missing or malformed node id
/// falls back to six zero bytes.
pub fn fresh_registry(uri: String, node_id: Option<Vec<u8>>) -> (r: Registry)
    ensures
        r.inv(),
        exists|rid: Seq<char>|
            rid.len() == 36 && r.s_params() == PTree::Dict(seq![("run_id"@, PTree::Str(rid))]),
        r.s_uri() == uri@,
        r.s_nodes() =~= Seq::<(Seq<char>, Seq<char>)>::empty(),
        r.s_topics() =~= Seq::<(Seq<char>, Seq<char>)>::empty(),
        r.s_subs() =~= Seq::<(Seq<char>, Seq<Seq<char>>)>::empty(),
        r.s_pubs() =~= Seq::<(Seq<char>, Seq<Seq<char>>)>::empty(),
        r.s_services() =~= Seq::<(Seq<char>, Seq<(Seq<char>, Seq<char>)>)>::empty(),
        r.s_psubs() =~= Seq::<(Seq<char>, Seq<char>, Seq<char>)>::empty(),
{
    let node = match node_id {
        Some(v) => {
            if v.len() == 6 {
                v
            } else {
                zero_node()
            }
        },
        None => zero_node(),
    };
    let run_id = uuid_v1_string(&node);
    let ghost rid = run_id@;
    let r = Registry::new(uri, run_id);
    proof {
        assert(rid.len() == 36 && r.s_params() == PTree::Dict(
            seq![("run_id"@, PTree::Str(rid))],
        ));
    }
    r
}

/// Six zero bytes, the fallback node id.
fn zero_node() -> (r: Vec<u8>)
    ensures
        r@.len() == 6,
{
    let mut v: Vec<u8> = Vec::new();
    v.push(0);
    v.push(0);
    v.push(0);
    v.push(0);
    v.push(0);
    v.push(0);
    v
}

} // verus!
