use vstd::prelude::*;

verus! {

/// The kind of a finger.
#[derive(Clone, Copy, Debug, PartialEq, Eq, Hash)]
pub enum FingerKind {
    Pinky,
    Ring,
    Middle,
    Index,
    Thumb,
}

/// A hand.
#[derive(Clone, Copy, Debug, PartialEq, Eq, Hash)]
pub enum Hand {
    Left,
    Right,
}

/// A finger: its kind and its hand.
#[derive(Clone, Copy, Debug, PartialEq, Eq, Hash)]
pub struct Finger {
    pub kind: FingerKind,
    pub hand: Hand,
}

/// The other hand.
pub open spec fn other_hand(h: Hand) -> Hand {
    match h {
        Hand::Left => Hand::Right,
        Hand::Right => Hand::Left,
    }
}

/// The number of a finger kind: pinky 0 up to thumb 4.
pub open spec fn kind_number(k: FingerKind) -> u8 {
    match k {
        FingerKind::Pinky => 0,
        FingerKind::Ring => 1,
        FingerKind::Middle => 2,
        FingerKind::Index => 3,
        FingerKind::Thumb => 4,
    }
}

/// The number of a hand: left 0, right 5.
pub open spec fn hand_number(h: Hand) -> u8 {
    match h {
        Hand::Left => 0,
        Hand::Right => 5,
    }
}

impl Hand {
    /// The other hand.
    pub fn mirror(&self) -> (r: Hand)
        ensures
            r == other_hand(*self),
    {
        match self {
            Hand::Left => Hand::Right,
            Hand::Right => Hand::Left,
        }
    }
}

impl Finger {
    /// The finger of the same kind on the other hand.
    pub fn mirror(&self) -> (r: Finger)
        ensures
            r.kind == self.kind,
            r.hand == other_hand(self.hand),
    {
        Finger { kind: self.kind, hand: self.hand.mirror() }
    }

    /// The finger's number, 0 to 9: the hand's number plus the kind's.
    pub fn number(&self) -> (r: u8)
        ensures
            r == hand_number(self.hand) + kind_number(self.kind),
    {
        let h: u8 = match self.hand {
            Hand::Left => 0,
            Hand::Right => 5,
        };
        let k: u8 = match self.kind {
            FingerKind::Pinky => 0,
            FingerKind::Ring => 1,
            FingerKind::Middle => 2,
            FingerKind::Index => 3,
            FingerKind::Thumb => 4,
        };
        h + k
    }

    /// The finger whose number is the decimal digit `v`, if `v` is one.
    pub fn from_digit(v: char) -> (r: Option<Finger>)
        ensures
            r is None <==> !('0' <= v <= '9'),
            r matches Some(f) ==> hand_number(f.hand) + kind_number(f.kind) == (v as u32) - ('0' as u32),
    {
        if v < '0' || v > '9' {
            return None;
        }
        let d = (v as u32) - ('0' as u32);
        let hand = if d < 5 { Hand::Left } else { Hand::Right };
        let kind = match d % 5 {
            0 => FingerKind::Pinky,
            1 => FingerKind::Ring,
            2 => FingerKind::Middle,
            3 => FingerKind::Index,
            _ => FingerKind::Thumb,
        };
        Some(Finger { kind, hand })
    }
}

} // verus!
