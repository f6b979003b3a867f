//! Handles into the material table.
//!
//! A handle is a one-based index into the table of registered
//! materials.  The default handle `0` means "unset" and must never be
//! dereferenced; registering the next material in a table of `count`
//! entries hands out handle `count + 1`, which names the entry just
//! pushed.

use vstd::prelude::*;

verus! {

/// A one-based index into the material table; `0` means unset.
#[derive(Default, Copy, Clone, PartialEq, Eq, Structural, Debug)]
pub struct MaterialHandle(pub usize);

impl MaterialHandle {
    /// The handle names a material, rather than the unset default.
    pub open spec fn is_set(self) -> bool {
        self.0 != 0
    }

    /// The handle names an entry of a table of `table_len` materials.
    pub open spec fn in_table(self, table_len: int) -> bool {
        1 <= self.0 <= table_len
    }

    /// The handle handed out when a table of `count` materials grows
    /// by one: it names the new entry, in the grown table.
    pub fn for_new_entry(count: usize) -> (h: MaterialHandle)
        requires
            count < usize::MAX,
        ensures
            h.0 == count + 1,
            h.is_set(),
            h.in_table(count as int + 1),
    {
        MaterialHandle(count + 1)
    }

    /// The zero-based table slot this handle names: always a valid
    /// index of any table the handle is in.
    pub fn index(self) -> (r: usize)
        requires
            self.is_set(),
        ensures
            r == self.0 - 1,
            forall|table_len: int| self.in_table(table_len) ==> (r as int) < table_len,
    {
        self.0 - 1
    }
}

} // verus!
