//! The sequence serializer.
//!
//! A sequence has no tag of its own. Its items are written under the
//! element that is open when it begins. Where the sequence is the whole
//! content of that element, it has to close the element behind its last
//! item; where each item brings its own pair of tags and nothing else is
//! outstanding, it must close nothing. Which of the two holds is fixed when
//! the serializer is made.

use crate::error::Error;
use crate::ser::{item_nodes, Serializer};
use crate::tree::{flatten_all, EventModel};
use crate::value::Value;
use vstd::prelude::*;

verus! {

/// Writes the items of one sequence through a borrowed [`Serializer`].
pub struct SeqSeralizer<'ser> {
    pub ser: &'ser mut Serializer,
    pub must_close_tag: bool,
}

impl<'ser> SeqSeralizer<'ser> {
    /// A sequence serializer that writes through `ser`. With
    /// `must_close_tag` it closes the innermost open element at its end.
    pub fn new(ser: &'ser mut Serializer, must_close_tag: bool) -> (r: Self)
        ensures
            r.must_close_tag == must_close_tag,
            *r.ser == *old(ser),
            *final(r.ser) == *final(ser),
    {
        SeqSeralizer { ser, must_close_tag }
    }

    /// Writes the next item, behind those written before.
    pub fn serialize_element(&mut self, value: &Value) -> (r: Result<(), Error>)
        requires
            old(self).ser.well_nested(),
        ensures
            r is Ok,
            final(self).ser.well_nested(),
            final(self).ser.events() == old(self).ser.events() + flatten_all(item_nodes(value@)),
            final(self).ser.open_tags() == old(self).ser.open_tags(),
            final(self).must_close_tag == old(self).must_close_tag,
            *final(final(self).ser) == *final(old(self).ser),
        decreases value, 2nat,
    {
        self.ser.serialize_item(value)?;
        Ok(())
    }

    /// Ends the sequence: closes the innermost open element where this
    /// serializer was made to, and writes nothing otherwise. Fails, with
    /// nothing written, where it was made to close and no element is open.
    pub fn end(self) -> (r: Result<(), Error>)
        requires
            old(self.ser).well_nested(),
        ensures
            final(self.ser).well_nested(),
            match r {
                Ok(_) => if self.must_close_tag {
                    &&& old(self.ser).open_tags().len() > 0
                    &&& final(self.ser).events() == old(self.ser).events().push(
                        EventModel::EndElement { name: old(self.ser).open_tags().last() },
                    )
                    &&& final(self.ser).open_tags() == old(self.ser).open_tags().drop_last()
                } else {
                    &&& final(self.ser).events() == old(self.ser).events()
                    &&& final(self.ser).open_tags() == old(self.ser).open_tags()
                },
                Err(e) => {
                    &&& e == Error::MalformedXml
                    &&& self.must_close_tag
                    &&& old(self.ser).open_tags().len() == 0
                    &&& final(self.ser).events() == old(self.ser).events()
                    &&& final(self.ser).open_tags() == old(self.ser).open_tags()
                },
            },
    {
        if self.must_close_tag {
            self.ser.end_tag()?;
        }
        Ok(())
    }
}

} // verus!
