use vstd::prelude::*;

verus! {

/// A display colour, as three 8-bit channels.
#[derive(Clone, Copy, Debug, PartialEq, Eq, Structural)]
pub struct Color {
    pub r: u8,
    pub g: u8,
    pub b: u8,
}

impl Color {
    pub fn from_rgb(r: u8, g: u8, b: u8) -> (c: Color)
        ensures
            c == (Color { r, g, b }),
    {
        Color { r, g, b }
    }

    /// The grey that fresh nodes are drawn in.
    pub open spec fn gray_spec() -> Color {
        Color { r: 160, g: 160, b: 160 }
    }

    pub fn gray() -> (c: Color)
        ensures
            c == Color::gray_spec(),
    {
        Color { r: 160, g: 160, b: 160 }
    }
}

/// A point on the canvas. Each coordinate is kept as the bit pattern of a
/// 32-bit IEEE-754 number; the graph engine stores positions but never
/// computes with them.
#[derive(Clone, Copy, Debug, PartialEq, Eq, Structural)]
pub struct Position {
    pub x_bits: u32,
    pub y_bits: u32,
}

/// A vertex record: a free-form name, a colour and a position.
#[derive(Debug)]
pub struct Node {
    pub name: String,
    pub color: Color,
    pub pos: Position,
}

impl Clone for Node {
    fn clone(&self) -> (r: Self)
        ensures
            r == *self,
    {
        Node { name: self.name.clone(), color: self.color, pos: self.pos }
    }
}

impl Node {
    pub fn new(pos: Position, color: Color, name: String) -> (r: Node)
        ensures
            r == (Node { name, color, pos }),
    {
        Node { color, pos, name }
    }

    /// A grey node with the default name, placed at `pos`.
    pub fn at_pos(pos: Position) -> (r: Node)
        ensures
            r.name@ == "Nowode :3"@,
            r.color == Color::gray_spec(),
            r.pos == pos,
    {
        let name = "Nowode :3".to_owned();
        proof {
            reveal_strlit("Nowode :3");
        }
        Node { name, color: Color::gray(), pos }
    }
}

} // verus!
