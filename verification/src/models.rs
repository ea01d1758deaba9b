//! The two row shapes read from the change log, and the document tree
//! that an edit-data payload is handed to the library as.

use vstd::prelude::*;
use crate::extract::views_of;

verus! {

/// A semi-structured document value: the payload of an edit-data row, as
/// the extractor reads it. String values anywhere in the tree may contain
/// URLs; every other kind of value only carries structure.
pub enum PayloadNode {
    Null,
    Bool(bool),
    Num(i64),
    Text(String),
    List(Vec<PayloadNode>),
    Obj(Vec<(String, PayloadNode)>),
}

/// The data of the edited entity.
pub struct EditData {
    pub edit: i32,
    pub data: PayloadNode,
}

/// The edit note of an entity. `post_time` is seconds since the epoch;
/// it is informational only and plays no part in extraction.
pub struct EditNote {
    pub id: i32,
    pub editor: i32,
    pub edit: i32,
    pub text: String,
    pub post_time: Option<i64>,
}

impl Clone for EditNote {
    /// A clone keeps every field.
    fn clone(&self) -> (res: Self)
        ensures
            res == *self,
    {
        EditNote {
            id: self.id,
            editor: self.editor,
            edit: self.edit,
            text: self.text.clone(),
            post_time: self.post_time,
        }
    }
}

/// Every string value in the tree under `n`, in document order.
pub open spec fn node_texts(n: PayloadNode) -> Seq<Seq<char>>
    decreases n,
{
    match n {
        PayloadNode::Text(s) => seq![s@],
        PayloadNode::List(items) => list_texts(items@),
        PayloadNode::Obj(entries) => obj_texts(entries@),
        _ => Seq::empty(),
    }
}

/// Every string value under a sequence of list elements, in order.
pub open spec fn list_texts(items: Seq<PayloadNode>) -> Seq<Seq<char>>
    decreases items,
{
    if items.len() == 0 {
        Seq::empty()
    } else {
        node_texts(items[0]) + list_texts(items.drop_first())
    }
}

/// Every string value under a sequence of object entries, in order.
/// Keys do not count: only values are searched for URLs.
pub open spec fn obj_texts(entries: Seq<(String, PayloadNode)>) -> Seq<Seq<char>>
    decreases entries,
{
    if entries.len() == 0 {
        Seq::empty()
    } else {
        node_texts(entries[0].1) + obj_texts(entries.drop_first())
    }
}

/// Collects every string value in the tree under `n`, in document order.
pub fn node_strings(n: &PayloadNode) -> (out: Vec<String>)
    ensures
        views_of(out@) == node_texts(*n),
    decreases n,
{
    match n {
        PayloadNode::Text(s) => {
            let mut out: Vec<String> = Vec::new();
            out.push(s.clone());
            proof {
                assert(views_of(out@) =~= node_texts(*n));
            }
            out
        },
        PayloadNode::List(items) => {
            let mut out: Vec<String> = Vec::new();
            let mut k: usize = 0;
            proof {
                assert(items@.skip(0) =~= items@);
                assert(views_of(out@) + list_texts(items@) =~= list_texts(items@));
            }
            while k < items.len()
                invariant
                    k <= items.len(),
                    *n == PayloadNode::List(*items),
                    views_of(out@) + list_texts(items@.skip(k as int)) == list_texts(items@),
                decreases items.len() - k,
            {
                proof {
                    assert(decreases_to!(*n => n->List_0));
                    assert(n->List_0 == *items);
                    assert(decreases_to!(*items => items@));
                    assert(decreases_to!(items@ => items@[k as int]));
                    assert(decreases_to!(*n => items@[k as int]));
                }
                let ghost out0 = out@;
                let mut sub = node_strings(&items[k]);
                out.append(&mut sub);
                proof {
                    let rest = items@.skip(k as int);
                    assert(rest[0] == items@[k as int]);
                    assert(rest.drop_first() =~= items@.skip(k as int + 1));
                    assert(list_texts(rest) == node_texts(items@[k as int]) + list_texts(
                        items@.skip(k as int + 1),
                    ));
                    assert(views_of(out@) =~= views_of(out0) + node_texts(items@[k as int]));
                    assert((views_of(out0) + node_texts(items@[k as int])) + list_texts(
                        items@.skip(k as int + 1),
                    ) =~= views_of(out0) + (node_texts(items@[k as int]) + list_texts(
                        items@.skip(k as int + 1),
                    )));
                }
                k += 1;
            }
            proof {
                assert(items@.skip(items@.len() as int) =~= Seq::<PayloadNode>::empty());
                assert(views_of(out@) + list_texts(items@.skip(items@.len() as int)) =~= views_of(
                    out@,
                ));
            }
            out
        },
        PayloadNode::Obj(entries) => {
            let mut out: Vec<String> = Vec::new();
            let mut k: usize = 0;
            proof {
                assert(entries@.skip(0) =~= entries@);
                assert(views_of(out@) + obj_texts(entries@) =~= obj_texts(entries@));
            }
            while k < entries.len()
                invariant
                    k <= entries.len(),
                    *n == PayloadNode::Obj(*entries),
                    views_of(out@) + obj_texts(entries@.skip(k as int)) == obj_texts(entries@),
                decreases entries.len() - k,
            {
                proof {
                    assert(decreases_to!(*n => n->Obj_0));
                    assert(n->Obj_0 == *entries);
                    assert(decreases_to!(*entries => entries@));
                    assert(decreases_to!(entries@ => entries@[k as int]));
                    assert(decreases_to!(entries@[k as int] => entries@[k as int].1));
                    assert(decreases_to!(*n => entries@[k as int].1));
                }
                let ghost out0 = out@;
                let mut sub = node_strings(&entries[k].1);
                out.append(&mut sub);
                proof {
                    let rest = entries@.skip(k as int);
                    assert(rest[0] == entries@[k as int]);
                    assert(rest.drop_first() =~= entries@.skip(k as int + 1));
                    assert(obj_texts(rest) == node_texts(entries@[k as int].1) + obj_texts(
                        entries@.skip(k as int + 1),
                    ));
                    assert(views_of(out@) =~= views_of(out0) + node_texts(entries@[k as int].1));
                    assert((views_of(out0) + node_texts(entries@[k as int].1)) + obj_texts(
                        entries@.skip(k as int + 1),
                    ) =~= views_of(out0) + (node_texts(entries@[k as int].1) + obj_texts(
                        entries@.skip(k as int + 1),
                    )));
                }
                k += 1;
            }
            proof {
                assert(entries@.skip(entries@.len() as int) =~= Seq::<(String, PayloadNode)>::empty());
                assert(views_of(out@) + obj_texts(entries@.skip(entries@.len() as int)) =~= views_of(
                    out@,
                ));
            }
            out
        },
        _ => {
            let out: Vec<String> = Vec::new();
            proof {
                assert(views_of(out@) =~= node_texts(*n));
            }
            out
        },
    }
}

} // verus!
