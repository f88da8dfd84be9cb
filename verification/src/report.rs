//! What a peer holds, as lines of text for whoever prints them.

use vstd::prelude::*;
use crate::keys::lines_of;
use crate::model::RingView;
use crate::node::{table_lines, Node, NodeStore};
use crate::text::{
    decimal, decimal_or_none, header_line, header_record, key_entries, keys_line, push_decimal,
    push_decimal_or_none, rule_line,
};

verus! {

/// The dump of the key store of `n`: the header and the list of the keys.
pub open spec fn keys_dump(rv: RingView, n: u8) -> Seq<Seq<char>> {
    seq![header_line(n), keys_line(rv.keys(n))]
}

/// The dump of the trace of `n`: the header, the lines of the trace, and
/// a rule.
pub open spec fn lookup_dump(rv: RingView, n: u8) -> Seq<Seq<char>> {
    seq![header_line(n)] + rv.lookup_info(n) + seq![rule_line()]
}

impl Node {
    /// The finger table of this peer as lines of text. Every finger has to
    /// point at a peer.
    pub fn pretty_print(&self, store: &NodeStore) -> (lines: Vec<String>)
        requires
            store.wf(),
            forall|i: int| 1 <= i <= 8 ==> (#[trigger] store@.finger(self.node_inner, i)) is Some,
        ensures
            lines_of(lines@) == table_lines(
                self.node_inner,
                store@.peer(self.node_inner).fingers,
                store@.predecessor(self.node_inner),
            ),
    {
        let table = store.table(*self);
        assert forall|i: int| 1 <= i <= 8 implies (#[trigger] table.spec_nodes()[i]) is Some by {
            assert(store@.finger(self.node_inner, i) is Some);
        }
        table.pretty_print()
    }

    /// The key store of this peer as lines of text.
    pub fn print_keys(&self, store: &NodeStore) -> (lines: Vec<String>)
        requires
            store.wf(),
        ensures
            lines_of(lines@) == keys_dump(store@, self.node_inner),
    {
        let mut lines: Vec<String> = Vec::new();
        lines.push(header_record(self.node_inner));
        let mut text = String::from_str("{");
        let mut k: usize = 0;
        let mut first = true;
        while k < 256
            invariant
                k <= 256,
                store.wf(),
                text@ == "{"@ + key_entries(store@.keys(self.node_inner), k as int),
                first == (key_entries(store@.keys(self.node_inner), k as int).len() == 0),
            decreases 256 - k,
        {
            let ghost before = key_entries(store@.keys(self.node_inner), k as int);
            match store.key_value(*self, k as u8) {
                Some(v) => {
                    if !first {
                        text.append(", ");
                    }
                    push_decimal(&mut text, k as u8);
                    text.append(": ");
                    push_decimal_or_none(&mut text, v);
                    first = false;
                    proof {
                        let sep = if before.len() == 0 {
                            Seq::<char>::empty()
                        } else {
                            ", "@
                        };
                        assert(text@ =~= "{"@ + (before + sep + decimal(k as u8)
                            + ": "@ + decimal_or_none(v)));
                        assert(decimal(k as u8).len() > 0);
                    }
                },
                None => {},
            }
            k = k + 1;
        }
        text.append("}");
        let ghost header = lines_of(lines@);
        lines.push(text);
        proof {
            assert(lines_of(lines@) =~= keys_dump(store@, self.node_inner));
        }
        lines
    }

    /// The trace of this peer as lines of text.
    pub fn print_lookup_results(&self, store: &NodeStore) -> (lines: Vec<String>)
        requires
            store.wf(),
        ensures
            lines_of(lines@) == lookup_dump(store@, self.node_inner),
    {
        let mut lines: Vec<String> = Vec::new();
        lines.push(header_record(self.node_inner));
        let mut results = store.lookup_results(*self);
        let ghost head = lines_of(lines@);
        let ghost body = lines_of(results@);
        lines.append(&mut results);
        let rule = String::from_str("------------------------------");
        lines.push(rule);
        proof {
            assert(lines_of(lines@) =~= lookup_dump(store@, self.node_inner));
        }
        lines
    }
}

} // verus!
