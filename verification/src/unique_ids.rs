//! The unique-ids workload: every node gives out names that no node gave out before.
use vstd::prelude::*;
use crate::json::{typed, Json, JsonView};
use crate::node::Message;
use crate::text::{
    all_digits, decimal, decimal_text, joined, law_joined_holds_both,
    law_numeral_stands_for_its_number, lemma_decimal_injective, lemma_decimal_without,
    lemma_joined_injective, same_text, value_of,
};

verus! {

/// The name that a node gives out when its counter stands at `counter`.
pub open spec fn unique_id(node_id: Seq<char>, counter: u64) -> Seq<char> {
    joined(node_id, '-', decimal(counter as nat))
}

/// A generator of names: counts those given out.
#[derive(Debug)]
pub struct Generator {
    pub counter: u64,
}

impl Generator {
    /// Makes a generator that has given out nothing.
    pub fn new() -> (r: Generator)
        ensures
            r.counter == 0,
    {
        Generator { counter: 0 }
    }

    /// Gives out a name, and counts it; the counter starts anew after the last number.
    pub fn generate(&mut self, node_id: &str) -> (r: String)
        ensures
            r@ == unique_id(node_id@, old(self).counter),
            final(self).counter == (if old(self).counter == u64::MAX {
                0
            } else {
                old(self).counter + 1
            }),
    {
        let c = self.counter;
        self.counter = c.wrapping_add(1);
        let mut id = node_id.to_owned();
        id.append("-");
        id.append(decimal_text(c).as_str());
        proof {
            reveal_strlit("-");
            assert("-"@ =~= seq!['-']);
            assert(id@ =~= unique_id(node_id@, c));
        }
        id
    }

    /// Handles a message: answers `generate`, and nothing else.
    pub fn handle(&mut self, node_id: &str, msg: &Message) -> (r: Option<Json>)
        ensures
            r is Some <==> msg@.msg_type == "generate"@,
            r matches Some(a) ==> a@ == typed("generate_ok"@).with(
                "id"@,
                JsonView::Text(unique_id(node_id@, old(self).counter)),
            ),
            final(self).counter == (if msg@.msg_type != "generate"@ {
                old(self).counter
            } else if old(self).counter == u64::MAX {
                0
            } else {
                (old(self).counter + 1) as u64
            }),
    {
        if same_text(msg.msg_type.as_str(), "generate") {
            let id = self.generate(node_id);
            Some(Json::typed("generate_ok").with("id", Json::Text(id)))
        } else {
            None
        }
    }
}

/// Names are unique: one name comes of one node and one count only.
pub proof fn law_ids_are_unique(a: Seq<char>, i: u64, b: Seq<char>, j: u64)
    requires
        unique_id(a, i) == unique_id(b, j),
    ensures
        a == b,
        i == j,
{
    lemma_decimal_without(i as nat, '-');
    lemma_decimal_without(j as nat, '-');
    lemma_joined_injective(a, decimal(i as nat), b, decimal(j as nat), '-');
    lemma_decimal_injective(i as nat, j as nat);
}

/// A name is that of its node, a dash and the count in decimal digits.
pub proof fn law_id_names_node_and_count(node_id: Seq<char>, counter: u64)
    ensures
        node_id.is_prefix_of(unique_id(node_id, counter)),
        unique_id(node_id, counter)[node_id.len() as int] == '-',
        value_of(unique_id(node_id, counter).skip(node_id.len() as int + 1)) == counter,
        all_digits(unique_id(node_id, counter).skip(node_id.len() as int + 1)),
        unique_id(node_id, counter).len() > node_id.len() as int + 1,
        counter > 0 ==> unique_id(node_id, counter)[node_id.len() as int + 1] != '0',
{
    let count = decimal(counter as nat);
    law_numeral_stands_for_its_number(counter as nat);
    law_joined_holds_both(node_id, '-', count);
    assert(unique_id(node_id, counter).skip(node_id.len() as int + 1) =~= count);
}

} // verus!
