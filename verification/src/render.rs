//! The dictionary as text: its entries between braces, each as its key, a
//! colon and its value, with commas between them, in the order of their
//! slots.
use crate::dictionary::Dictionary;
use crate::key::HashKey;
use std::fmt::Display;
use vstd::prelude::*;
use vstd::string::{to_string_from_display_ensures, StringExecFns};

verus! {

/// One entry as text: the key, a colon, a space, and the value.
pub open spec fn entry_text(part: (String, String)) -> Seq<char> {
    part.0@ + ": "@ + part.1@
}

/// The entries as text, with a comma and a space between one and the next.
pub open spec fn listed(parts: Seq<(String, String)>) -> Seq<char>
    decreases parts.len(),
{
    if parts.len() == 0 {
        Seq::empty()
    } else if parts.len() == 1 {
        entry_text(parts[0])
    } else {
        listed(parts.drop_last()) + ", "@ + entry_text(parts.last())
    }
}

/// The entries as text between braces.
pub open spec fn rendered(parts: Seq<(String, String)>) -> Seq<char> {
    "{"@ + listed(parts) + "}"@
}

/// Writes entries, each given as the text of its key and the text of its
/// value, between braces.
pub fn render(parts: &Vec<(String, String)>) -> (text: String)
    ensures
        text@ == rendered(parts@),
{
    let mut text = String::from_str("{");
    let mut at: usize = 0;
    while at < parts.len()
        invariant
            at <= parts.len(),
            text@ == "{"@ + listed(parts@.take(at as int)),
        decreases parts.len() - at,
    {
        proof {
            assert(parts@.take(at + 1).drop_last() =~= parts@.take(at as int));
            assert(parts@.take(at + 1).last() == parts@[at as int]);
            if at == 0 {
                assert(listed(parts@.take(0)) =~= Seq::<char>::empty());
                assert(parts@.take(1)[0] == parts@[0]);
            }
        }
        let ghost before = text@;
        if at > 0 {
            text.append(", ");
        }
        text.append(parts[at].0.as_str());
        text.append(": ");
        text.append(parts[at].1.as_str());
        proof {
            if at > 0 {
                assert(text@ =~= before + ", "@ + entry_text(parts@[at as int]));
                assert(text@ =~= "{"@ + listed(parts@.take(at + 1)));
            } else {
                assert(text@ =~= before + entry_text(parts@[at as int]));
                assert(text@ =~= "{"@ + listed(parts@.take(at + 1)));
            }
        }
        at = at + 1;
    }
    proof {
        assert(parts@.take(at as int) =~= parts@);
    }
    text.append("}");
    text
}

impl<K: HashKey + Display, V: Display> Dictionary<K, V> {
    /// `parts` holds, for each entry in the order of the slots, a text that
    /// the key's `Display` gives and a text that the value's `Display` gives.
    pub open spec fn shown_as(&self, parts: Seq<(String, String)>) -> bool {
        &&& parts.len() == self.entries().len()
        &&& forall|i: int|
            0 <= i < parts.len() ==> {
                &&& to_string_from_display_ensures::<K>(&self.entries()[i].0, (#[trigger] parts[i]).0)
                &&& to_string_from_display_ensures::<V>(&self.entries()[i].1, parts[i].1)
            }
    }

    /// The dictionary as text: `{}` where it is empty, and else its entries
    /// between braces, such as `{1: 6, 2: 7}`.
    pub fn to_string(&self) -> (text: String)
        requires
            self.wf(),
        ensures
            exists|parts: Seq<(String, String)>| #[trigger]
                self.shown_as(parts) && text@ == rendered(parts),
    {
        let items = self.items();
        let mut parts: Vec<(String, String)> = Vec::new();
        let mut at: usize = 0;
        while at < items.len()
            invariant
                at <= items.len(),
                items.len() == self.entries().len(),
                forall|i: int|
                    0 <= i < items.len() ==> {
                        &&& *(#[trigger] items@[i]).0 == self.entries()[i].0
                        &&& *items@[i].1 == self.entries()[i].1
                    },
                parts.len() == at,
                forall|i: int|
                    0 <= i < at ==> {
                        &&& to_string_from_display_ensures::<K>(
                            &self.entries()[i].0,
                            (#[trigger] parts@[i]).0,
                        )
                        &&& to_string_from_display_ensures::<V>(&self.entries()[i].1, parts@[i].1)
                    },
            decreases items.len() - at,
        {
            let key_text = items[at].0.to_string();
            let value_text = items[at].1.to_string();
            parts.push((key_text, value_text));
            at = at + 1;
        }
        proof {
            assert(self.shown_as(parts@));
        }
        render(&parts)
    }
}

} // verus!
