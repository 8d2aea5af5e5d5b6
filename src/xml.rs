//! A plain tree of XML elements, the form in which parsed documents reach the
//! library, with attribute lookup and typed attribute reading.

use vstd::prelude::*;

use crate::codec::opt_text;
use crate::error::Error;
use crate::text::{i32_of, parse_i32, parse_u32, text_is, u32_of};

verus! {

/// One `name="value"` attribute of an element.
#[derive(Clone, Debug)]
pub struct XmlAttribute {
    pub name: String,
    pub value: String,
}

/// An element: its tag name, attributes in document order, the text that directly
/// follows its start tag (if any), and its child elements in document order.
#[derive(Debug)]
pub struct XmlNode {
    pub name: String,
    pub attributes: Vec<XmlAttribute>,
    pub text: Option<String>,
    pub children: Vec<XmlNode>,
}

/// Index of the first element called `name`.
pub open spec fn first_named(nodes: Seq<XmlNode>, name: Seq<char>) -> Option<int>
    decreases nodes.len(),
{
    if nodes.len() == 0 {
        None
    } else {
        match first_named(nodes.drop_last(), name) {
            Some(i) => Some(i),
            None => if nodes.last().name@ == name {
                Some(nodes.len() - 1)
            } else {
                None
            },
        }
    }
}

/// Value of the last attribute called `name`.
pub open spec fn last_value(attrs: Seq<XmlAttribute>, name: Seq<char>) -> Option<Seq<char>>
    decreases attrs.len(),
{
    if attrs.len() == 0 {
        None
    } else if attrs.last().name@ == name {
        Some(attrs.last().value@)
    } else {
        last_value(attrs.drop_last(), name)
    }
}

/// Every attribute called `name` holds an unsigned 32-bit decimal number.
pub open spec fn all_u32(attrs: Seq<XmlAttribute>, name: Seq<char>) -> bool {
    forall|i: int|
        0 <= i < attrs.len() && (#[trigger] attrs[i]).name@ == name ==> u32_of(attrs[i].value@) is Some
}

/// Every attribute called `name` holds a signed 32-bit decimal number.
pub open spec fn all_i32(attrs: Seq<XmlAttribute>, name: Seq<char>) -> bool {
    forall|i: int|
        0 <= i < attrs.len() && (#[trigger] attrs[i]).name@ == name ==> i32_of(attrs[i].value@) is Some
}

/// The unsigned number held by the attribute `name`, `None` when absent.
pub open spec fn attr_u32(attrs: Seq<XmlAttribute>, name: Seq<char>) -> Result<Option<u32>, Error> {
    if !all_u32(attrs, name) {
        Err(Error::ParsingError)
    } else {
        match last_value(attrs, name) {
            Some(v) => Ok(u32_of(v)),
            None => Ok(None),
        }
    }
}

/// The signed number held by the attribute `name`, `None` when absent.
pub open spec fn attr_i32(attrs: Seq<XmlAttribute>, name: Seq<char>) -> Result<Option<i32>, Error> {
    if !all_i32(attrs, name) {
        Err(Error::ParsingError)
    } else {
        match last_value(attrs, name) {
            Some(v) => Ok(i32_of(v)),
            None => Ok(None),
        }
    }
}

pub open spec fn opt_string(o: Option<String>) -> Option<Seq<char>> {
    match o {
        Some(s) => Some(s@),
        None => None,
    }
}

proof fn lemma_first_named_prefix(nodes: Seq<XmlNode>, name: Seq<char>, k: int)
    requires
        0 <= k <= nodes.len(),
        first_named(nodes.take(k), name) is Some,
    ensures
        first_named(nodes, name) == first_named(nodes.take(k), name),
    decreases nodes.len() - k,
{
    if k < nodes.len() {
        assert(nodes.take(k + 1).drop_last() =~= nodes.take(k));
        lemma_first_named_prefix(nodes, name, k + 1);
    } else {
        assert(nodes.take(k) =~= nodes);
    }
}

proof fn lemma_last_value_step(attrs: Seq<XmlAttribute>, name: Seq<char>, i: int)
    requires
        0 <= i < attrs.len(),
    ensures
        last_value(attrs.take(i + 1), name) == (if attrs[i].name@ == name {
            Some(attrs[i].value@)
        } else {
            last_value(attrs.take(i), name)
        }),
{
    assert(attrs.take(i + 1).drop_last() =~= attrs.take(i));
}

impl XmlNode {
    /// Index of the first child element called `name`.
    pub fn child_index(&self, name: &str) -> (r: Option<usize>)
        ensures
            r is None <==> first_named(self.children@, name@) is None,
            r matches Some(i) ==> i < self.children@.len() && first_named(self.children@, name@)
                == Some(i as int),
    {
        let mut i: usize = 0;
        assert(self.children@.take(0) =~= Seq::<XmlNode>::empty());
        while i < self.children.len()
            invariant
                i <= self.children@.len(),
                first_named(self.children@.take(i as int), name@) is None,
            decreases self.children.len() - i,
        {
            assert(self.children@.take(i + 1).drop_last() =~= self.children@.take(i as int));
            if text_is(self.children[i].name.as_str(), name) {
                proof {
                    lemma_first_named_prefix(self.children@, name@, i + 1);
                }
                return Some(i);
            }
            i += 1;
        }
        assert(self.children@.take(i as int) =~= self.children@);
        None
    }

    /// Value of the attribute `name` (the last one, should it repeat).
    pub fn attribute(&self, name: &str) -> (r: Option<&str>)
        ensures
            opt_text(r) == last_value(self.attributes@, name@),
    {
        let mut r: Option<&str> = None;
        let mut i: usize = 0;
        assert(self.attributes@.take(0) =~= Seq::<XmlAttribute>::empty());
        while i < self.attributes.len()
            invariant
                i <= self.attributes@.len(),
                opt_text(r) == last_value(self.attributes@.take(i as int), name@),
            decreases self.attributes.len() - i,
        {
            proof {
                lemma_last_value_step(self.attributes@, name@, i as int);
            }
            let a = &self.attributes[i];
            if text_is(a.name.as_str(), name) {
                r = Some(a.value.as_str());
            }
            i += 1;
        }
        assert(self.attributes@.take(i as int) =~= self.attributes@);
        r
    }

    /// Reads the attribute `name` as an unsigned number; any attribute of that name
    /// that is not one is an error.
    pub fn attribute_u32(&self, name: &str) -> (r: Result<Option<u32>, Error>)
        ensures
            r == attr_u32(self.attributes@, name@),
    {
        let mut r: Option<u32> = None;
        let mut i: usize = 0;
        assert(self.attributes@.take(0) =~= Seq::<XmlAttribute>::empty());
        while i < self.attributes.len()
            invariant
                i <= self.attributes@.len(),
                all_u32(self.attributes@.take(i as int), name@),
                r == (match last_value(self.attributes@.take(i as int), name@) {
                    Some(v) => u32_of(v),
                    None => None,
                }),
            decreases self.attributes.len() - i,
        {
            proof {
                lemma_last_value_step(self.attributes@, name@, i as int);
            }
            let a = &self.attributes[i];
            if text_is(a.name.as_str(), name) {
                match parse_u32(a.value.as_str()) {
                    None => {
                        assert(self.attributes@[i as int] == *a);
                        return Err(Error::ParsingError);
                    },
                    Some(v) => {
                        r = Some(v);
                    },
                }
            }
            assert forall|j: int|
                0 <= j < i + 1 && (#[trigger] self.attributes@.take(i + 1)[j]).name@
                    == name@ implies u32_of(self.attributes@.take(i + 1)[j].value@) is Some by {
                if j < i {
                    assert(self.attributes@.take(i + 1)[j] == self.attributes@.take(i as int)[j]);
                }
            }
            i += 1;
        }
        assert(self.attributes@.take(i as int) =~= self.attributes@);
        Ok(r)
    }

    /// Reads the attribute `name` as a signed number; any attribute of that name
    /// that is not one is an error.
    pub fn attribute_i32(&self, name: &str) -> (r: Result<Option<i32>, Error>)
        ensures
            r == attr_i32(self.attributes@, name@),
    {
        let mut r: Option<i32> = None;
        let mut i: usize = 0;
        assert(self.attributes@.take(0) =~= Seq::<XmlAttribute>::empty());
        while i < self.attributes.len()
            invariant
                i <= self.attributes@.len(),
                all_i32(self.attributes@.take(i as int), name@),
                r == (match last_value(self.attributes@.take(i as int), name@) {
                    Some(v) => i32_of(v),
                    None => None,
                }),
            decreases self.attributes.len() - i,
        {
            proof {
                lemma_last_value_step(self.attributes@, name@, i as int);
            }
            let a = &self.attributes[i];
            if text_is(a.name.as_str(), name) {
                match parse_i32(a.value.as_str()) {
                    None => {
                        assert(self.attributes@[i as int] == *a);
                        return Err(Error::ParsingError);
                    },
                    Some(v) => {
                        r = Some(v);
                    },
                }
            }
            assert forall|j: int|
                0 <= j < i + 1 && (#[trigger] self.attributes@.take(i + 1)[j]).name@
                    == name@ implies i32_of(self.attributes@.take(i + 1)[j].value@) is Some by {
                if j < i {
                    assert(self.attributes@.take(i + 1)[j] == self.attributes@.take(i as int)[j]);
                }
            }
            i += 1;
        }
        assert(self.attributes@.take(i as int) =~= self.attributes@);
        Ok(r)
    }
}

} // verus!
