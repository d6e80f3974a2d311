//! A player: a display name and the four tokens of one color.

use crate::color::Color;
use crate::token::{Status, Token};
use vstd::prelude::*;

verus! {

/// One seat at the table: exactly 4 tokens, one per id 1 to 4, all of the
/// same color, plus a display name.
#[derive(Debug)]
pub struct Player {
    pub tokens: Vec<Token>,
    pub name: String,
}

impl Player {
    /// The color this player plays; every token carries it.
    pub open spec fn color_spec(self) -> Color {
        self.tokens@[0].color
    }

    /// Exactly four well-formed tokens with ids 1 to 4, all of one color.
    pub open spec fn wf(self) -> bool {
        &&& self.tokens@.len() == 4
        &&& forall|i: int|
            0 <= i < 4 ==> {
                &&& (#[trigger] self.tokens@[i]).wf()
                &&& self.tokens@[i].id == i + 1
                &&& self.tokens@[i].color == self.color_spec()
            }
    }

    /// A fresh seat: four tokens of `color`, ids 1 to 4, all still at home.
    pub fn new(color: Color, name: String) -> (p: Player)
        ensures
            p.wf(),
            p.color_spec() == color,
            p.name@ == name@,
            forall|i: int| 0 <= i < 4 ==> (#[trigger] p.tokens@[i]).status is Home,
    {
        let mut tokens: Vec<Token> = Vec::new();
        tokens.push(Token::new(color, 1));
        tokens.push(Token::new(color, 2));
        tokens.push(Token::new(color, 3));
        tokens.push(Token::new(color, 4));
        Player { tokens, name }
    }

    /// The color of this player's tokens.
    pub fn color(&self) -> (c: Color)
        requires
            self.wf(),
        ensures
            c == self.color_spec(),
    {
        self.tokens[0].color
    }
}

} // verus!
