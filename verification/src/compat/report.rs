//! What a comparison prints and how it ends.
use crate::compat::text::texts;
use vstd::prelude::*;

verus! {

/// The lines that a comparison prints.
#[derive(Debug)]
pub struct Report {
    lines: Vec<String>,
}

impl View for Report {
    type V = Seq<Seq<char>>;

    closed spec fn view(&self) -> Seq<Seq<char>> {
        texts(self.lines@)
    }
}

impl Report {
    /// A report without lines.
    pub fn new() -> (r: Self)
        ensures
            r@ == Seq::<Seq<char>>::empty(),
    {
        let r = Report { lines: Vec::new() };
        assert(r@ =~= Seq::empty());
        r
    }

    /// The lines, in their order.
    pub fn lines(&self) -> (r: &Vec<String>)
        ensures
            texts(r@) == self@,
    {
        &self.lines
    }

    /// Writes a line.
    pub fn line(&mut self, line: String)
        ensures
            final(self)@ == old(self)@.push(line@),
    {
        self.lines.push(line);
        assert(self@ =~= old(self)@.push(line@));
    }
}

/// What a comparison fails with.
pub open spec fn failure(result: Result<(), String>) -> Option<Seq<char>> {
    match result {
        Ok(_) => None,
        Err(error) => Some(error@),
    }
}

} // verus!
