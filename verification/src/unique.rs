//! The unique-id workload: each `generate` request is answered with an
//! identifier `<node_id>-<seq>` built from the node's name and the reply's
//! own sequence number. Identifiers are unique across the cluster: the
//! digits after the final dash pin down the sequence number, and what
//! precedes that dash pins down the node.

use crate::{Body, Init, Message};
use vstd::prelude::*;
use vstd::string::StringExecFns;

verus! {

/// The payload namespace of the unique-id workload.
#[derive(Debug, Clone)]
pub enum UniquePayload {
    Generate,
    GenerateOk { guid: String },
}

/// The decimal digit character for `d` (digits ten and up never arise).
pub open spec fn digit_char(d: nat) -> char {
    if d == 0 {
        '0'
    } else if d == 1 {
        '1'
    } else if d == 2 {
        '2'
    } else if d == 3 {
        '3'
    } else if d == 4 {
        '4'
    } else if d == 5 {
        '5'
    } else if d == 6 {
        '6'
    } else if d == 7 {
        '7'
    } else if d == 8 {
        '8'
    } else {
        '9'
    }
}

pub open spec fn is_digit(c: char) -> bool {
    c == '0' || c == '1' || c == '2' || c == '3' || c == '4' || c == '5' || c == '6' || c == '7'
        || c == '8' || c == '9'
}

/// The decimal rendering of `n`, most significant digit first, without
/// leading zeros (except for `n == 0` itself).
pub open spec fn dec_chars(n: nat) -> Seq<char>
    decreases n,
{
    if n < 10 {
        seq![digit_char(n)]
    } else {
        dec_chars(n / 10) + seq![digit_char(n % 10)]
    }
}

/// The generated identifier: the node's name, a dash, and the decimal
/// rendering of the sequence number.
pub open spec fn guid_chars(node: Seq<char>, n: nat) -> Seq<char> {
    node + seq!['-'] + dec_chars(n)
}

pub proof fn lemma_dec_chars_len(n: nat)
    ensures
        dec_chars(n).len() >= 1,
        n >= 10 ==> dec_chars(n).len() >= 2,
    decreases n,
{
    if n >= 10 {
        lemma_dec_chars_len(n / 10);
    }
}

pub proof fn lemma_dec_chars_digits(n: nat)
    ensures
        forall|i: int| 0 <= i < dec_chars(n).len() ==> is_digit(#[trigger] dec_chars(n)[i]),
    decreases n,
{
    if n >= 10 {
        lemma_dec_chars_digits(n / 10);
        assert forall|i: int| 0 <= i < dec_chars(n).len() implies is_digit(
            #[trigger] dec_chars(n)[i],
        ) by {
            if i < dec_chars(n / 10).len() {
                assert(dec_chars(n)[i] == dec_chars(n / 10)[i]);
            } else {
                assert(dec_chars(n)[i] == digit_char(n % 10));
            }
        }
    }
}

/// Distinct numbers render as distinct digit strings.
pub proof fn lemma_dec_chars_injective(a: nat, b: nat)
    requires
        dec_chars(a) == dec_chars(b),
    ensures
        a == b,
    decreases a,
{
    lemma_dec_chars_len(a);
    lemma_dec_chars_len(b);
    if a < 10 && b < 10 {
        assert(dec_chars(a)[0] == digit_char(a));
        assert(dec_chars(b)[0] == digit_char(b));
    } else if a < 10 {
        assert(dec_chars(a).len() == 1);
        lemma_dec_chars_len(b / 10);
        assert(dec_chars(b).len() >= 2);
    } else if b < 10 {
        assert(dec_chars(b).len() == 1);
        lemma_dec_chars_len(a / 10);
        assert(dec_chars(a).len() >= 2);
    } else {
        assert(dec_chars(a).last() == digit_char(a % 10));
        assert(dec_chars(b).last() == digit_char(b % 10));
        assert(a % 10 == b % 10);
        assert(dec_chars(a).drop_last() =~= dec_chars(a / 10));
        assert(dec_chars(b).drop_last() =~= dec_chars(b / 10));
        lemma_dec_chars_injective(a / 10, b / 10);
        assert(a == 10 * (a / 10) + a % 10);
        assert(b == 10 * (b / 10) + b % 10);
    }
}

/// Unique identifiers: two generated identifiers coincide only if the
/// same node built them from the same sequence number. The digits after
/// the final dash are the sequence number, and no digit is a dash, so the
/// identifier determines both parts.
pub proof fn lemma_guid_unique(node1: Seq<char>, s1: nat, node2: Seq<char>, s2: nat)
    requires
        guid_chars(node1, s1) == guid_chars(node2, s2),
    ensures
        node1 == node2,
        s1 == s2,
{
    let d1 = dec_chars(s1);
    let d2 = dec_chars(s2);
    let g = guid_chars(node1, s1);
    lemma_dec_chars_len(s1);
    lemma_dec_chars_len(s2);
    lemma_dec_chars_digits(s1);
    lemma_dec_chars_digits(s2);
    assert(g.len() == node1.len() + 1 + d1.len());
    assert(g.len() == node2.len() + 1 + d2.len());
    assert(g[node1.len() as int] == '-');
    assert(g[node2.len() as int] == '-');
    if d1.len() < d2.len() {
        // The dash of the first form would land inside the digits of the
        // second form.
        let p = node1.len() as int;
        assert(p - node2.len() - 1 >= 0);
        assert(g[p] == d2[p - node2.len() - 1]);
        assert(is_digit(g[p]));
        assert(false);
    } else if d2.len() < d1.len() {
        let p = node2.len() as int;
        assert(p - node1.len() - 1 >= 0);
        assert(g[p] == d1[p - node1.len() - 1]);
        assert(is_digit(g[p]));
        assert(false);
    } else {
        assert(node1.len() == node2.len());
        assert(node1 =~= node2) by {
            assert forall|i: int| 0 <= i < node1.len() implies node1[i] == node2[i] by {
                assert(g[i] == node1[i]);
                assert(g[i] == node2[i]);
            }
        }
        assert(d1 =~= d2) by {
            assert forall|i: int| 0 <= i < d1.len() implies d1[i] == d2[i] by {
                assert(d1[i] == g[node1.len() + 1 + i]);
                assert(d2[i] == g[node2.len() + 1 + i]);
            }
        }
        lemma_dec_chars_injective(s1, s2);
    }
}

/// Append the decimal digit `d` to a string.
fn push_digit(s: &mut String, d: usize)
    requires
        d < 10,
    ensures
        final(s)@ == old(s)@ + seq![digit_char(d as nat)],
{
    if d == 0 {
        proof {
            reveal_strlit("0");
        }
        s.append("0");
    } else if d == 1 {
        proof {
            reveal_strlit("1");
        }
        s.append("1");
    } else if d == 2 {
        proof {
            reveal_strlit("2");
        }
        s.append("2");
    } else if d == 3 {
        proof {
            reveal_strlit("3");
        }
        s.append("3");
    } else if d == 4 {
        proof {
            reveal_strlit("4");
        }
        s.append("4");
    } else if d == 5 {
        proof {
            reveal_strlit("5");
        }
        s.append("5");
    } else if d == 6 {
        proof {
            reveal_strlit("6");
        }
        s.append("6");
    } else if d == 7 {
        proof {
            reveal_strlit("7");
        }
        s.append("7");
    } else if d == 8 {
        proof {
            reveal_strlit("8");
        }
        s.append("8");
    } else {
        proof {
            reveal_strlit("9");
        }
        s.append("9");
    }
    proof {
        assert(s@ =~= old(s)@ + seq![digit_char(d as nat)]);
    }
}

/// Append the decimal rendering of `n` to a string.
fn push_dec(s: &mut String, n: usize)
    ensures
        final(s)@ == old(s)@ + dec_chars(n as nat),
    decreases n,
{
    if n >= 10 {
        push_dec(s, n / 10);
    }
    push_digit(s, n % 10);
    proof {
        assert(s@ =~= old(s)@ + dec_chars(n as nat));
    }
}

/// Build the identifier `<node>-<n>`.
pub fn make_guid(node: &str, n: usize) -> (r: String)
    ensures
        r@ == guid_chars(node@, n as nat),
{
    let mut s = node.to_owned();
    proof {
        reveal_strlit("-");
    }
    s.append("-");
    push_dec(&mut s, n);
    proof {
        assert(s@ =~= guid_chars(node@, n as nat));
    }
    s
}

/// The unique-id node: the node's own name and the sequence counter for
/// outgoing messages.
pub struct UniqueNode {
    pub node: String,
    pub id: usize,
}

impl UniqueNode {
    pub fn from_init(init: Init) -> (r: Self)
        ensures
            r.node == init.node_id,
            r.id == 1,
    {
        UniqueNode { node: init.node_id, id: 1 }
    }

    /// Handle one inbound message. A `generate` request is answered with
    /// a fresh identifier built from this node's name and the reply's own
    /// sequence number; a stray `generate_ok` is ignored. Either way one
    /// sequence number is consumed, as in the reply discipline of
    /// [`Message::into_reply`].
    pub fn step(&mut self, input: Message<UniquePayload>) -> (r: Option<Message<UniquePayload>>)
        requires
            old(self).id < usize::MAX,
        ensures
            final(self).node == old(self).node,
            final(self).id == old(self).id + 1,
            match input.body.payload {
                UniquePayload::Generate => {
                    &&& r matches Some(reply)
                    &&& reply.src == input.dst
                    &&& reply.dst == input.src
                    &&& reply.body.id == Some(old(self).id)
                    &&& reply.body.in_reply_to == input.body.id
                    &&& reply.body.payload matches UniquePayload::GenerateOk { guid } && guid@
                        == guid_chars(old(self).node@, old(self).id as nat)
                },
                UniquePayload::GenerateOk { .. } => r is None,
            },
    {
        let guid_id = self.id;
        let reply = input.into_reply(&mut self.id);
        match reply.body.payload {
            UniquePayload::Generate => {
                let guid = make_guid(self.node.as_str(), guid_id);
                Some(
                    Message {
                        src: reply.src,
                        dst: reply.dst,
                        body: Body {
                            id: reply.body.id,
                            in_reply_to: reply.body.in_reply_to,
                            payload: UniquePayload::GenerateOk { guid },
                        },
                    },
                )
            },
            UniquePayload::GenerateOk { .. } => None,
        }
    }
}

} // verus!
