//! An append-only store of strings addressed by stable integer ids.
use vstd::prelude::*;

verus! {

pub struct TextBook {
    blocks: Vec<String>,
}

impl View for TextBook {
    type V = Seq<Seq<char>>;

    /// The texts in the order they were added; a text's id is its index.
    closed spec fn view(&self) -> Seq<Seq<char>> {
        Seq::new(self.blocks@.len(), |i: int| self.blocks@[i]@)
    }
}

impl TextBook {
    pub fn new() -> (r: TextBook)
        ensures
            r@ == Seq::<Seq<char>>::empty(),
    {
        TextBook { blocks: Vec::new() }
    }

    /// Stores a copy of `text` and returns its id.
    pub fn add(&mut self, text: &str) -> (id: usize)
        ensures
            id == old(self)@.len(),
            final(self)@ == old(self)@.push(text@),
    {
        let id = self.blocks.len();
        self.blocks.push(text.to_string());
        proof {
            assert(self@ =~= old(self)@.push(text@));
        }
        id
    }

    pub fn len(&self) -> (r: usize)
        ensures
            r == self@.len(),
    {
        self.blocks.len()
    }

    /// The characters of the text stored under `id`.
    pub fn chars(&self, id: usize) -> (r: Vec<char>)
        requires
            id < self@.len(),
        ensures
            r@ == self@[id as int],
    {
        let s = self.blocks[id].as_str();
        let mut v: Vec<char> = Vec::new();
        for c in it: s.chars()
            invariant
                v@ == it.seq().take(it.index() as int),
        {
            v.push(c);
        }
        v
    }

    /// The text stored under `id`.
    pub fn get(&self, id: usize) -> (r: &str)
        requires
            id < self@.len(),
        ensures
            r@ == self@[id as int],
    {
        self.blocks[id].as_str()
    }
}

} // verus!
