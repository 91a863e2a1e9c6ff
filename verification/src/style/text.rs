//! The builder of a piece of text: what it says, where, and in which colour.
//! Fonts and their measures are the caller's business.

use crate::color::Color;
use vstd::prelude::*;

verus! {

/// What a text builder holds.
pub struct TextShape {
    pub text: Seq<char>,
    pub position: (usize, usize),
    pub color: Color,
}

/// Collects the words and the place of a piece of text.
pub struct TextBuilder {
    text: String,
    position: (usize, usize),
    color: Color,
}

impl TextBuilder {
    pub closed spec fn view(&self) -> TextShape {
        TextShape { text: self.text@, position: self.position, color: self.color }
    }
}

impl Default for TextBuilder {
    /// No text, at the top left corner, in white.
    fn default() -> (builder: Self)
        ensures
            builder@ == (TextShape {
                text: Seq::empty(),
                position: (0, 0),
                color: Color::Rgb(0xff, 0xff, 0xff),
            }),
    {
        Self { text: String::new(), position: (0, 0), color: Color::new_rgb(0xff, 0xff, 0xff) }
    }
}

impl TextBuilder {
    pub fn position(&mut self, position: (usize, usize)) -> (builder: &mut Self)
        ensures
            builder@ == (TextShape { position, ..old(self)@ }),
            *final(self) == *final(builder),
    {
        self.position = position;
        self
    }

    pub fn x(&mut self, x: usize) -> (builder: &mut Self)
        ensures
            builder@ == (TextShape { position: (x, old(self)@.position.1), ..old(self)@ }),
            *final(self) == *final(builder),
    {
        self.position.0 = x;
        self
    }

    pub fn y(&mut self, y: usize) -> (builder: &mut Self)
        ensures
            builder@ == (TextShape { position: (old(self)@.position.0, y), ..old(self)@ }),
            *final(self) == *final(builder),
    {
        self.position.1 = y;
        self
    }

    /// Sets the text to the string that `text` converts to.
    pub fn text<S>(&mut self, text: S) -> (builder: &mut Self) where String: From<S>
        ensures
            exists|words: String|
                {
                    &&& #[trigger] call_ensures(<String as From<S>>::from, (text,), words)
                    &&& builder@ == (TextShape { text: words@, ..old(self)@ })
                },
            *final(self) == *final(builder),
    {
        self.text = String::from(text);
        self
    }

    /// The words as they stand.
    pub fn words(&self) -> (words: &String)
        ensures
            words@ == self@.text,
    {
        &self.text
    }

    /// Where the text starts.
    pub fn place(&self) -> (position: (usize, usize))
        ensures
            position == self@.position,
    {
        self.position
    }
}

} // verus!
