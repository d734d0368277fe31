use vstd::prelude::*;

use crate::text::same_text;

verus! {

/// Maps each peer address to the handle of that connection's outbound queue.
/// Each address appears at most once.
pub struct ConnectionRegistry<H> {
    addrs: Vec<String>,
    handles: Vec<H>,
}

impl<H> ConnectionRegistry<H> {
    /// The registered addresses, in the order they were first inserted.
    pub closed spec fn addresses(&self) -> Seq<Seq<char>> {
        self.addrs@.map_values(|a: String| a@)
    }

    /// The handle of each address of [`Self::addresses`], at the same position.
    pub closed spec fn handles(&self) -> Seq<H> {
        self.handles@
    }

    pub open spec fn wf(&self) -> bool {
        &&& self.addresses().len() == self.handles().len()
        &&& forall|i: int, j: int|
            0 <= i < j < self.addresses().len() ==> self.addresses()[i] != self.addresses()[j]
    }

    pub fn new() -> (r: ConnectionRegistry<H>)
        ensures
            r.wf(),
            r.addresses() == Seq::<Seq<char>>::empty(),
            r.handles() == Seq::<H>::empty(),
    {
        let r = ConnectionRegistry { addrs: Vec::new(), handles: Vec::new() };
        assert(r.addresses() =~= Seq::<Seq<char>>::empty());
        r
    }

    /// The number of registered addresses.
    pub fn len(&self) -> (r: usize)
        requires
            self.wf(),
        ensures
            r == self.addresses().len(),
    {
        self.addrs.len()
    }

    /// The position of `addr`, if it is registered.
    fn find(&self, addr: &str) -> (r: Option<usize>)
        requires
            self.wf(),
        ensures
            match r {
                Some(i) => i < self.addresses().len() && self.addresses()[i as int] == addr@,
                None => !self.addresses().contains(addr@),
            },
    {
        let mut i: usize = 0;
        while i < self.addrs.len()
            invariant
                self.wf(),
                i <= self.addrs@.len(),
                forall|j: int| 0 <= j < i ==> self.addresses()[j] != addr@,
            decreases self.addrs@.len() - i,
        {
            if same_text(self.addrs[i].as_str(), addr) {
                return Some(i);
            }
            i = i + 1;
        }
        None
    }

    /// The handle registered for `addr`.
    pub fn get(&self, addr: &str) -> (r: Option<&H>)
        requires
            self.wf(),
        ensures
            match r {
                Some(h) => exists|i: int|
                    0 <= i < self.addresses().len() && self.addresses()[i] == addr@
                        && self.handles()[i] == *h,
                None => !self.addresses().contains(addr@),
            },
    {
        match self.find(addr) {
            Some(i) => Some(&self.handles[i]),
            None => None,
        }
    }

    /// Registers `handle` for `addr`. An address already present keeps its
    /// position and gets the new handle; the handle it had is returned.
    pub fn insert(&mut self, addr: String, handle: H) -> (r: Option<H>)
        requires
            old(self).wf(),
        ensures
            final(self).wf(),
            match r {
                Some(prev) => exists|i: int|
                    0 <= i < old(self).addresses().len() && old(self).addresses()[i] == addr@
                        && old(self).handles()[i] == prev && final(self).addresses() == old(
                        self,
                    ).addresses() && final(self).handles() == old(self).handles().update(
                        i,
                        handle,
                    ),
                None => {
                    &&& !old(self).addresses().contains(addr@)
                    &&& final(self).addresses() == old(self).addresses().push(addr@)
                    &&& final(self).handles() == old(self).handles().push(handle)
                },
            },
    {
        match self.find(addr.as_str()) {
            Some(i) => {
                let prev = self.handles.remove(i);
                self.handles.insert(i, handle);
                assert(self.handles() =~= old(self).handles().update(i as int, handle));
                Some(prev)
            },
            None => {
                let ghost a = addr@;
                self.addrs.push(addr);
                self.handles.push(handle);
                assert(self.addresses() =~= old(self).addresses().push(a));
                None
            },
        }
    }

    /// Forgets `addr`, as when its connection is torn down, and returns its
    /// handle. The other addresses keep their order.
    pub fn remove(&mut self, addr: &str) -> (r: Option<H>)
        requires
            old(self).wf(),
        ensures
            final(self).wf(),
            match r {
                Some(h) => exists|i: int|
                    0 <= i < old(self).addresses().len() && old(self).addresses()[i] == addr@
                        && old(self).handles()[i] == h && final(self).addresses() == old(
                        self,
                    ).addresses().remove(i) && final(self).handles() == old(
                        self,
                    ).handles().remove(i),
                None => {
                    &&& !old(self).addresses().contains(addr@)
                    &&& final(self).addresses() == old(self).addresses()
                    &&& final(self).handles() == old(self).handles()
                },
            },
    {
        match self.find(addr) {
            Some(i) => {
                self.addrs.remove(i);
                let h = self.handles.remove(i);
                assert(self.addresses() =~= old(self).addresses().remove(i as int));
                Some(h)
            },
            None => None,
        }
    }
}

} // verus!
