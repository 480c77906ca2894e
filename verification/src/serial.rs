//! A structured, self-contained text form of the graph: one JSON object
//! mapping each address (in ascending order, the graph's own order) to an
//! object exposing the node's address, matches and children. The whole
//! rendering is a function of the graph's contents alone, so serializing the
//! same graph twice yields identical text.

use vstd::prelude::*;

use crate::address::Address;
use crate::graph::Graph;
use crate::node::NodeView;

verus! {

/// The hexadecimal digit for `n`.
pub open spec fn hex_char(n: int) -> char {
    "0123456789abcdef"@[n]
}

/// How one character is written inside a JSON string literal: quotes and
/// backslashes are escaped, control characters take their short escape or a
/// `\u00..` form, and everything else stands for itself.
pub open spec fn esc_char(c: char) -> Seq<char> {
    if c == '"' {
        seq!['\\', '"']
    } else if c == '\\' {
        seq!['\\', '\\']
    } else if c == '\u{8}' {
        seq!['\\', 'b']
    } else if c == '\t' {
        seq!['\\', 't']
    } else if c == '\n' {
        seq!['\\', 'n']
    } else if c == '\u{c}' {
        seq!['\\', 'f']
    } else if c == '\r' {
        seq!['\\', 'r']
    } else if (c as u32) < 0x20 {
        seq!['\\', 'u', '0', '0', hex_char(c as int / 16), hex_char(c as int % 16)]
    } else {
        seq![c]
    }
}

/// A string escaped for JSON, character by character.
pub open spec fn escape(s: Seq<char>) -> Seq<char>
    decreases s.len(),
{
    if s.len() == 0 {
        Seq::<char>::empty()
    } else {
        escape(s.drop_last()) + esc_char(s.last())
    }
}

/// A JSON string literal: the escaped text in double quotes.
pub open spec fn jstr(s: Seq<char>) -> Seq<char> {
    seq!['"'] + escape(s) + seq!['"']
}

/// A comma-separated list of JSON string literals (no brackets).
pub open spec fn json_string_list(items: Seq<Seq<char>>) -> Seq<char>
    decreases items.len(),
{
    if items.len() == 0 {
        Seq::<char>::empty()
    } else if items.len() == 1 {
        jstr(items[0])
    } else {
        json_string_list(items.drop_last()) + seq![','] + jstr(items.last())
    }
}

/// The JSON object for one node.
pub open spec fn json_node(n: NodeView) -> Seq<char> {
    "{\"address\":"@ + jstr(n.address) + ",\"matches\":["@ + json_string_list(n.matches)
        + "],\"children\":["@ + json_string_list(n.children) + "]}"@
}

/// One `"address":{...}` member of the top-level object.
pub open spec fn json_entry(n: NodeView) -> Seq<char> {
    jstr(n.address) + seq![':'] + json_node(n)
}

/// The comma-separated members of the top-level object.
pub open spec fn json_entries(g: Seq<NodeView>) -> Seq<char>
    decreases g.len(),
{
    if g.len() == 0 {
        Seq::<char>::empty()
    } else if g.len() == 1 {
        json_entry(g[0])
    } else {
        json_entries(g.drop_last()) + seq![','] + json_entry(g.last())
    }
}

/// The whole graph as one JSON object, in the graph's (ascending address)
/// order.
pub open spec fn json_graph(g: Seq<NodeView>) -> Seq<char> {
    seq!['{'] + json_entries(g) + seq!['}']
}

/// Serialization is a pure function of the graph's final contents: two
/// graphs with the same contents serialize to identical text, however they
/// were produced and however often they are serialized.
pub proof fn lemma_serialize_deterministic(a: Seq<NodeView>, b: Seq<NodeView>)
    requires
        a == b,
    ensures
        json_graph(a) == json_graph(b),
{
}

/// Append one character's JSON escape, `c` being character `i` of `s`.
fn append_escaped_char(out: &mut String, s: &str, i: usize)
    requires
        i < s@.len(),
        s@.len() <= usize::MAX,
    ensures
        final(out)@ == old(out)@ + esc_char(s@[i as int]),
{
    let c = s.get_char(i);
    if c == '"' {
        out.append("\\\"");
        proof {
            reveal_strlit("\\\"");
            assert("\\\""@ =~= esc_char(c));
        }
    } else if c == '\\' {
        out.append("\\\\");
        proof {
            reveal_strlit("\\\\");
            assert("\\\\"@ =~= esc_char(c));
        }
    } else if c == '\u{8}' {
        out.append("\\b");
        proof {
            reveal_strlit("\\b");
            assert("\\b"@ =~= esc_char(c));
        }
    } else if c == '\t' {
        out.append("\\t");
        proof {
            reveal_strlit("\\t");
            assert("\\t"@ =~= esc_char(c));
        }
    } else if c == '\n' {
        out.append("\\n");
        proof {
            reveal_strlit("\\n");
            assert("\\n"@ =~= esc_char(c));
        }
    } else if c == '\u{c}' {
        out.append("\\f");
        proof {
            reveal_strlit("\\f");
            assert("\\f"@ =~= esc_char(c));
        }
    } else if c == '\r' {
        out.append("\\r");
        proof {
            reveal_strlit("\\r");
            assert("\\r"@ =~= esc_char(c));
        }
    } else if (c as u32) < 0x20 {
        let ghost before = out@;
        out.append("\\u00");
        let table = "0123456789abcdef";
        proof {
            reveal_strlit("0123456789abcdef");
            reveal_strlit("\\u00");
        }
        let code: u32 = c as u32;
        let hi: usize = (code / 16) as usize;
        let lo: usize = (code % 16) as usize;
        let dh = table.substring_char(hi, hi + 1);
        out.append(dh);
        let dl = table.substring_char(lo, lo + 1);
        out.append(dl);
        proof {
            assert(dh@ =~= seq![hex_char(c as int / 16)]);
            assert(dl@ =~= seq![hex_char(c as int % 16)]);
            assert(out@ =~= before + esc_char(c));
        }
    } else {
        let piece = s.substring_char(i, i + 1);
        out.append(piece);
        proof {
            assert(piece@ =~= seq![c]);
            assert(seq![c] =~= esc_char(c));
        }
    }
}

/// Append the JSON escape of all of `s`.
fn append_escaped(out: &mut String, s: &str)
    ensures
        final(out)@ == old(out)@ + escape(s@),
{
    let n = s.unicode_len();
    let mut i: usize = 0;
    proof {
        assert(escape(s@.take(0)) =~= Seq::<char>::empty());
        assert(out@ =~= out@ + escape(s@.take(0)));
    }
    while i < n
        invariant
            0 <= i <= n,
            n == s@.len(),
            out@ == old(out)@ + escape(s@.take(i as int)),
        decreases n - i,
    {
        proof {
            assert(s@.len() <= usize::MAX);
        }
        append_escaped_char(out, s, i);
        proof {
            assert(s@.take(i + 1).drop_last() =~= s@.take(i as int));
            assert(s@.take(i + 1).last() == s@[i as int]);
            assert(out@ == old(out)@ + escape(s@.take(i as int)) + esc_char(s@[i as int]));
            assert(old(out)@ + escape(s@.take(i as int)) + esc_char(s@[i as int]) =~= old(out)@
                + escape(s@.take(i + 1)));
        }
        i += 1;
    }
    proof {
        assert(s@.take(n as int) =~= s@);
    }
}

/// Append one JSON string literal.
fn append_jstr(out: &mut String, s: &str)
    ensures
        final(out)@ == old(out)@ + jstr(s@),
{
    proof {
        reveal_strlit("\"");
    }
    out.append("\"");
    proof {
        assert("\""@ =~= seq!['"']);
    }
    append_escaped(out, s);
    out.append("\"");
    proof {
        assert(out@ =~= old(out)@ + jstr(s@));
    }
}

/// Append a comma-separated list of JSON string literals.
fn append_match_list(out: &mut String, items: &Vec<String>)
    ensures
        final(out)@ == old(out)@ + json_string_list(items.deep_view()),
{
    let ghost dv = items.deep_view();
    let mut k: usize = 0;
    proof {
        assert(dv.len() == items.len());
        assert(json_string_list(dv.take(0)) =~= Seq::<char>::empty());
        assert(out@ =~= out@ + json_string_list(dv.take(0)));
    }
    while k < items.len()
        invariant
            0 <= k <= items.len(),
            dv == items.deep_view(),
            dv.len() == items.len(),
            out@ == old(out)@ + json_string_list(dv.take(k as int)),
        decreases items.len() - k,
    {
        proof {
            assert(dv[k as int] == items@[k as int]@);
        }
        if k > 0 {
            proof {
                reveal_strlit(",");
            }
            out.append(",");
            proof {
                assert(","@ =~= seq![',']);
            }
        }
        append_jstr(out, items[k].as_str());
        proof {
            assert(dv.take(k + 1).drop_last() =~= dv.take(k as int));
            assert(dv.take(k + 1).last() == dv[k as int]);
            if k == 0 {
                assert(json_string_list(dv.take(1)) == jstr(dv[0]));
                assert(out@ =~= old(out)@ + json_string_list(dv.take(1)));
            } else {
                assert(out@ =~= old(out)@ + json_string_list(dv.take(k + 1)));
            }
        }
        k += 1;
    }
    proof {
        assert(dv.take(items.len() as int) =~= dv);
    }
}

/// Append a comma-separated list of JSON string literals, one per address.
fn append_address_list(out: &mut String, items: &Vec<Address>)
    ensures
        final(out)@ == old(out)@ + json_string_list(items.deep_view()),
{
    let ghost dv = items.deep_view();
    let mut k: usize = 0;
    proof {
        assert(dv.len() == items.len());
        assert(json_string_list(dv.take(0)) =~= Seq::<char>::empty());
        assert(out@ =~= out@ + json_string_list(dv.take(0)));
    }
    while k < items.len()
        invariant
            0 <= k <= items.len(),
            dv == items.deep_view(),
            dv.len() == items.len(),
            out@ == old(out)@ + json_string_list(dv.take(k as int)),
        decreases items.len() - k,
    {
        proof {
            assert(dv[k as int] == items@[k as int]@);
        }
        if k > 0 {
            proof {
                reveal_strlit(",");
            }
            out.append(",");
            proof {
                assert(","@ =~= seq![',']);
            }
        }
        append_jstr(out, items[k].as_str());
        proof {
            assert(dv.take(k + 1).drop_last() =~= dv.take(k as int));
            assert(dv.take(k + 1).last() == dv[k as int]);
            if k == 0 {
                assert(json_string_list(dv.take(1)) == jstr(dv[0]));
                assert(out@ =~= old(out)@ + json_string_list(dv.take(1)));
            } else {
                assert(out@ =~= old(out)@ + json_string_list(dv.take(k + 1)));
            }
        }
        k += 1;
    }
    proof {
        assert(dv.take(items.len() as int) =~= dv);
    }
}

impl Graph {
    /// The graph as one JSON object: each address, in ascending order, maps
    /// to an object giving the node's address, its matches and its children.
    /// The text is a function of the graph's contents alone.
    pub fn serialize(&self) -> (r: String)
        ensures
            r@ == json_graph(self@),
    {
        let nodes = self.iter();
        let ghost g = self@;
        let mut out = String::new();
        proof {
            reveal_strlit("{");
            reveal_strlit("}");
            reveal_strlit(",");
        }
        out.append("{");
        proof {
            assert("{"@ =~= seq!['{']);
            assert(json_entries(g.take(0)) =~= Seq::<char>::empty());
            assert(out@ =~= seq!['{'] + json_entries(g.take(0)));
        }
        let mut k: usize = 0;
        while k < nodes.len()
            invariant
                0 <= k <= nodes.len(),
                nodes.deep_view() == g,
                g.len() == nodes.len(),
                out@ == seq!['{'] + json_entries(g.take(k as int)),
            decreases nodes.len() - k,
        {
            proof {
                assert(g[k as int] == nodes@[k as int]@);
            }
            let ghost before = out@;
            if k > 0 {
                proof {
                    reveal_strlit(",");
                }
                out.append(",");
                proof {
                    assert(out@ =~= before + seq![',']);
                }
            }
            let node = &nodes[k];
            append_jstr(&mut out, node.address.as_str());
            proof {
                reveal_strlit(":");
            }
            out.append(":");
            proof {
                assert(":"@ =~= seq![':']);
                reveal_strlit("{\"address\":");
            }
            out.append("{\"address\":");
            append_jstr(&mut out, node.address.as_str());
            proof {
                reveal_strlit(",\"matches\":[");
            }
            out.append(",\"matches\":[");
            append_match_list(&mut out, &node.matches);
            proof {
                reveal_strlit("],\"children\":[");
            }
            out.append("],\"children\":[");
            append_address_list(&mut out, &node.children);
            proof {
                reveal_strlit("]}");
            }
            out.append("]}");
            proof {
                let nv = g[k as int];
                assert(node@ == nv);
                assert(out@ =~= before + (if k == 0 {
                    Seq::<char>::empty()
                } else {
                    seq![',']
                }) + json_entry(nv));
                assert(g.take(k + 1).drop_last() =~= g.take(k as int));
                assert(g.take(k + 1).last() == nv);
                if k == 0 {
                    assert(json_entries(g.take(1)) == json_entry(g[0]));
                    assert(out@ =~= seq!['{'] + json_entries(g.take(1)));
                } else {
                    assert(out@ =~= seq!['{'] + json_entries(g.take(k + 1)));
                }
            }
            k += 1;
        }
        proof {
            assert(g.take(nodes.len() as int) =~= g);
        }
        out.append("}");
        proof {
            assert(out@ =~= json_graph(g));
        }
        out
    }
}

} // verus!
