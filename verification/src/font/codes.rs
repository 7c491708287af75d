//! Which glyph name each of the 256 codes of a simple font selects.
use vstd::prelude::*;

use crate::bytes;

verus! {

/// A glyph name for each code, or none.
#[derive(Debug, PartialEq, Eq)]
pub struct CodeNames {
    pub names: Vec<Option<Vec<u8>>>,
}

/// The names by code.
pub type CodesView = Seq<Option<Seq<u8>>>;

/// The bytes of a name, if there is one.
pub open spec fn name_view(name: Option<Vec<u8>>) -> Option<Seq<u8>> {
    match name {
        Some(n) => Some(n@),
        None => None,
    }
}

impl View for CodeNames {
    type V = CodesView;

    open spec fn view(&self) -> CodesView {
        self.names@.map_values(|n: Option<Vec<u8>>| name_view(n))
    }
}

/// No code has a name.
pub open spec fn no_codes() -> CodesView {
    Seq::new(256, |i: int| None::<Seq<u8>>)
}

impl CodeNames {
    /// Every code has its place.
    pub open spec fn wf(self) -> bool {
        self.names@.len() == 256
    }

    pub fn new() -> (r: CodeNames)
        ensures
            r.wf(),
            r@ == no_codes(),
    {
        let mut names: Vec<Option<Vec<u8>>> = Vec::new();
        let mut i: usize = 0;
        while i < 256
            invariant
                i <= 256,
                names@.len() == i,
                forall|k: int| 0 <= k < i ==> #[trigger] names@[k] is None,
            decreases 256 - i,
        {
            names.push(None);
            i += 1;
        }
        let r = CodeNames { names };
        assert(r@ =~= no_codes());
        r
    }

    /// Gives a code its name.
    pub fn set(&mut self, code: u8, name: &[u8])
        requires
            old(self).wf(),
        ensures
            final(self).wf(),
            final(self)@ == old(self)@.update(code as int, Some(name@)),
    {
        let ghost before = self@;
        self.names[code as usize] = Some(bytes::copy(name));
        assert(self@ =~= before.update(code as int, Some(name@)));
    }

    /// Whether a code has this name.
    pub fn selects(&self, code: u8, name: &[u8]) -> (r: bool)
        requires
            self.wf(),
        ensures
            r == (self@[code as int] == Some(name@)),
    {
        match &self.names[code as usize] {
            Some(n) => bytes::same(n, name),
            None => false,
        }
    }
}

} // verus!
