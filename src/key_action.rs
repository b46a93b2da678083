use vstd::prelude::*;

verus! {

/// An action that a key can be bound to.
#[derive(Clone, Copy, Debug, PartialEq, Eq, Hash, Structural)]
pub enum KeyAction {
    Left,
    Right,
    SoftDrop,
    HardDrop,
    RotateCw,
    RotateCcw,
    Rotate180,
    Hold,
    Reset,
    Undo,
}

impl KeyAction {
    /// Every action, in declaration order.
    pub fn all() -> (r: Vec<KeyAction>)
        ensures
            r@.len() == 10,
            forall|a: KeyAction| #[trigger] r@.contains(a),
    {
        let r = vec![
            KeyAction::Left,
            KeyAction::Right,
            KeyAction::SoftDrop,
            KeyAction::HardDrop,
            KeyAction::RotateCw,
            KeyAction::RotateCcw,
            KeyAction::Rotate180,
            KeyAction::Hold,
            KeyAction::Reset,
            KeyAction::Undo,
        ];
        assert forall|a: KeyAction| #[trigger] r@.contains(a) by {
            match a {
                KeyAction::Left => assert(r@[0] == a),
                KeyAction::Right => assert(r@[1] == a),
                KeyAction::SoftDrop => assert(r@[2] == a),
                KeyAction::HardDrop => assert(r@[3] == a),
                KeyAction::RotateCw => assert(r@[4] == a),
                KeyAction::RotateCcw => assert(r@[5] == a),
                KeyAction::Rotate180 => assert(r@[6] == a),
                KeyAction::Hold => assert(r@[7] == a),
                KeyAction::Reset => assert(r@[8] == a),
                KeyAction::Undo => assert(r@[9] == a),
            }
        }
        r
    }
}

} // verus!
