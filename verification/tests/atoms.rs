use polonius_engine::{AllFacts, Atom};

#[derive(Clone, Copy, PartialEq, Eq, PartialOrd, Ord, Hash, Debug)]
struct Block(usize);

impl From<usize> for Block {
    fn from(index: usize) -> Block {
        Block(index)
    }
}

impl From<Block> for usize {
    fn from(block: Block) -> usize {
        block.0
    }
}

impl Atom for Block {
    fn index_spec(self) -> usize {
        self.0
    }

    fn index_is_injective(_a: Block, _b: Block) {}

    fn index(self) -> usize {
        self.0
    }
}

#[test]
fn an_atom_of_the_caller_is_simplified_by_its_index() {
    let mut facts = <AllFacts<usize, usize, Block>>::default();
    facts.cfg_edge = vec![(Block(7), Block(3)), (Block(3), Block(5)), (Block(5), Block(1))];
    facts.killed = vec![(0, Block(5))];
    facts.simplify_cfg();
    assert_eq!(facts.cfg_edge, vec![(Block(7), Block(5)), (Block(5), Block(1))]);
    assert_eq!(facts.killed, vec![(0, Block(5))]);
}
