use vstd::prelude::*;

verus! {

/// One symbol of the alphabet. The variants are declared in alphabetical order,
/// which is also the order in which a search walks them.
#[derive(Clone, Copy, Debug, PartialEq, Eq, Hash, Structural)]
pub enum Letter {
    A,
    B,
    C,
    D,
    E,
    F,
    G,
    H,
    I,
    J,
    K,
    L,
    M,
    N,
    O,
    P,
    Q,
    R,
    S,
    T,
    U,
    V,
    W,
    X,
    Y,
    Z,
}

/// ASCII `a`.
pub const LOWER_A: u8 = 0x61;

/// ASCII `z`.
pub const LOWER_Z: u8 = 0x7a;

/// ASCII `A`.
pub const UPPER_A: u8 = 0x41;

/// ASCII `Z`.
pub const UPPER_Z: u8 = 0x5a;

/// The letter that a byte stands for: an ASCII letter of either case stands for
/// the letter at its distance from `a` (or `A`); no other byte stands for one.
pub open spec fn letter_of_byte(b: u8) -> Option<Letter> {
    if LOWER_A <= b <= LOWER_Z {
        Some(Letter::at(b - LOWER_A))
    } else if UPPER_A <= b <= UPPER_Z {
        Some(Letter::at(b - UPPER_A))
    } else {
        None
    }
}

/// The letters that a byte string stands for, if every byte of it stands for one.
pub open spec fn letters_of_bytes(bytes: Seq<u8>) -> Option<Seq<Letter>> {
    if forall|i: int| 0 <= i < bytes.len() ==> letter_of_byte(#[trigger] bytes[i]) is Some {
        Some(Seq::new(bytes.len(), |i: int| letter_of_byte(bytes[i]).unwrap()))
    } else {
        None
    }
}

impl Letter {
    /// Position in the alphabet: 0 for `A`, 25 for `Z`.
    pub open spec fn ord(self) -> int {
        match self {
            Letter::A => 0,
            Letter::B => 1,
            Letter::C => 2,
            Letter::D => 3,
            Letter::E => 4,
            Letter::F => 5,
            Letter::G => 6,
            Letter::H => 7,
            Letter::I => 8,
            Letter::J => 9,
            Letter::K => 10,
            Letter::L => 11,
            Letter::M => 12,
            Letter::N => 13,
            Letter::O => 14,
            Letter::P => 15,
            Letter::Q => 16,
            Letter::R => 17,
            Letter::S => 18,
            Letter::T => 19,
            Letter::U => 20,
            Letter::V => 21,
            Letter::W => 22,
            Letter::X => 23,
            Letter::Y => 24,
            Letter::Z => 25,
        }
    }

    /// The letter at position `i`. Positions outside `0..26` are clamped to the
    /// nearest end, so that the function is total.
    pub open spec fn at(i: int) -> Letter {
        if i <= 0 {
            Letter::A
        } else if i == 1 {
            Letter::B
        } else if i == 2 {
            Letter::C
        } else if i == 3 {
            Letter::D
        } else if i == 4 {
            Letter::E
        } else if i == 5 {
            Letter::F
        } else if i == 6 {
            Letter::G
        } else if i == 7 {
            Letter::H
        } else if i == 8 {
            Letter::I
        } else if i == 9 {
            Letter::J
        } else if i == 10 {
            Letter::K
        } else if i == 11 {
            Letter::L
        } else if i == 12 {
            Letter::M
        } else if i == 13 {
            Letter::N
        } else if i == 14 {
            Letter::O
        } else if i == 15 {
            Letter::P
        } else if i == 16 {
            Letter::Q
        } else if i == 17 {
            Letter::R
        } else if i == 18 {
            Letter::S
        } else if i == 19 {
            Letter::T
        } else if i == 20 {
            Letter::U
        } else if i == 21 {
            Letter::V
        } else if i == 22 {
            Letter::W
        } else if i == 23 {
            Letter::X
        } else if i == 24 {
            Letter::Y
        } else {
            Letter::Z
        }
    }

    /// `ord` and `at` are inverse to each other on the 26 positions.
    pub proof fn lemma_ord_at(self)
        ensures
            0 <= self.ord() < 26,
            Letter::at(self.ord()) == self,
    {
    }

    /// `at` reaches every position of the alphabet.
    pub proof fn lemma_at_ord(i: int)
        requires
            0 <= i < 26,
        ensures
            Letter::at(i).ord() == i,
    {
    }

    /// Position in the alphabet, as a machine integer.
    pub fn ordinal(self) -> (i: usize)
        ensures
            i == self.ord(),
            i < 26,
    {
        match self {
            Letter::A => 0,
            Letter::B => 1,
            Letter::C => 2,
            Letter::D => 3,
            Letter::E => 4,
            Letter::F => 5,
            Letter::G => 6,
            Letter::H => 7,
            Letter::I => 8,
            Letter::J => 9,
            Letter::K => 10,
            Letter::L => 11,
            Letter::M => 12,
            Letter::N => 13,
            Letter::O => 14,
            Letter::P => 15,
            Letter::Q => 16,
            Letter::R => 17,
            Letter::S => 18,
            Letter::T => 19,
            Letter::U => 20,
            Letter::V => 21,
            Letter::W => 22,
            Letter::X => 23,
            Letter::Y => 24,
            Letter::Z => 25,
        }
    }

    /// Reads a letter from an ASCII byte of either case; any other byte is refused.
    pub fn from_byte(cha: &u8) -> (r: Option<Letter>)
        ensures
            r == letter_of_byte(*cha),
            r is Some <==> (LOWER_A <= *cha <= LOWER_Z || UPPER_A <= *cha <= UPPER_Z),
    {
        let mut cha: u8 = *cha;
        if cha >= UPPER_A && cha <= UPPER_Z {
            cha = cha - UPPER_A + LOWER_A;
        }
        match cha {
            0x61 => Some(Letter::A),
            0x62 => Some(Letter::B),
            0x63 => Some(Letter::C),
            0x64 => Some(Letter::D),
            0x65 => Some(Letter::E),
            0x66 => Some(Letter::F),
            0x67 => Some(Letter::G),
            0x68 => Some(Letter::H),
            0x69 => Some(Letter::I),
            0x6a => Some(Letter::J),
            0x6b => Some(Letter::K),
            0x6c => Some(Letter::L),
            0x6d => Some(Letter::M),
            0x6e => Some(Letter::N),
            0x6f => Some(Letter::O),
            0x70 => Some(Letter::P),
            0x71 => Some(Letter::Q),
            0x72 => Some(Letter::R),
            0x73 => Some(Letter::S),
            0x74 => Some(Letter::T),
            0x75 => Some(Letter::U),
            0x76 => Some(Letter::V),
            0x77 => Some(Letter::W),
            0x78 => Some(Letter::X),
            0x79 => Some(Letter::Y),
            0x7a => Some(Letter::Z),
            _ => None,
        }
    }

    /// The lower-case ASCII byte of the letter.
    pub fn to_byte(self) -> (b: u8)
        ensures
            b == LOWER_A + self.ord(),
            letter_of_byte(b) == Some(self),
    {
        match self {
            Letter::A => 0x61,
            Letter::B => 0x62,
            Letter::C => 0x63,
            Letter::D => 0x64,
            Letter::E => 0x65,
            Letter::F => 0x66,
            Letter::G => 0x67,
            Letter::H => 0x68,
            Letter::I => 0x69,
            Letter::J => 0x6a,
            Letter::K => 0x6b,
            Letter::L => 0x6c,
            Letter::M => 0x6d,
            Letter::N => 0x6e,
            Letter::O => 0x6f,
            Letter::P => 0x70,
            Letter::Q => 0x71,
            Letter::R => 0x72,
            Letter::S => 0x73,
            Letter::T => 0x74,
            Letter::U => 0x75,
            Letter::V => 0x76,
            Letter::W => 0x77,
            Letter::X => 0x78,
            Letter::Y => 0x79,
            Letter::Z => 0x7a,
        }
    }

    /// Reads a whole byte string. One byte that is no letter refuses all of it.
    pub fn from_bytes(other: &[u8]) -> (r: Option<Vec<Letter>>)
        ensures
            r matches Some(letters) ==> letters_of_bytes(other@) == Some(letters@),
            r is None ==> letters_of_bytes(other@) is None,
    {
        let mut letters: Vec<Letter> = Vec::new();
        let mut i: usize = 0;
        while i < other.len()
            invariant
                i <= other.len(),
                letters@.len() == i,
                forall|j: int| 0 <= j < i ==> letter_of_byte(#[trigger] other@[j]) == Some(letters@[j]),
            decreases other.len() - i,
        {
            match Letter::from_byte(&other[i]) {
                Some(letter) => {
                    letters.push(letter);
                },
                None => {
                    return None;
                },
            }
            i += 1;
        }
        assert(letters_of_bytes(other@).unwrap() =~= letters@);
        Some(letters)
    }

    /// The next letter of the alphabet; `Z` has none.
    pub fn inc(self) -> (r: Option<Letter>)
        ensures
            r == (if self.ord() < 25 { Some(Letter::at(self.ord() + 1)) } else { None::<Letter> }),
            r is None <==> self == Letter::Z,
            r matches Some(next) ==> next.ord() == self.ord() + 1,
    {
        match self {
            Letter::A => Some(Letter::B),
            Letter::B => Some(Letter::C),
            Letter::C => Some(Letter::D),
            Letter::D => Some(Letter::E),
            Letter::E => Some(Letter::F),
            Letter::F => Some(Letter::G),
            Letter::G => Some(Letter::H),
            Letter::H => Some(Letter::I),
            Letter::I => Some(Letter::J),
            Letter::J => Some(Letter::K),
            Letter::K => Some(Letter::L),
            Letter::L => Some(Letter::M),
            Letter::M => Some(Letter::N),
            Letter::N => Some(Letter::O),
            Letter::O => Some(Letter::P),
            Letter::P => Some(Letter::Q),
            Letter::Q => Some(Letter::R),
            Letter::R => Some(Letter::S),
            Letter::S => Some(Letter::T),
            Letter::T => Some(Letter::U),
            Letter::U => Some(Letter::V),
            Letter::V => Some(Letter::W),
            Letter::W => Some(Letter::X),
            Letter::X => Some(Letter::Y),
            Letter::Y => Some(Letter::Z),
            Letter::Z => None,
        }
    }

    /// The previous letter of the alphabet; `A` has none.
    pub fn dec(self) -> (r: Option<Letter>)
        ensures
            r == (if self.ord() > 0 { Some(Letter::at(self.ord() - 1)) } else { None::<Letter> }),
            r is None <==> self == Letter::A,
            r matches Some(prev) ==> prev.ord() == self.ord() - 1,
    {
        match self {
            Letter::A => None,
            Letter::B => Some(Letter::A),
            Letter::C => Some(Letter::B),
            Letter::D => Some(Letter::C),
            Letter::E => Some(Letter::D),
            Letter::F => Some(Letter::E),
            Letter::G => Some(Letter::F),
            Letter::H => Some(Letter::G),
            Letter::I => Some(Letter::H),
            Letter::J => Some(Letter::I),
            Letter::K => Some(Letter::J),
            Letter::L => Some(Letter::K),
            Letter::M => Some(Letter::L),
            Letter::N => Some(Letter::M),
            Letter::O => Some(Letter::N),
            Letter::P => Some(Letter::O),
            Letter::Q => Some(Letter::P),
            Letter::R => Some(Letter::Q),
            Letter::S => Some(Letter::R),
            Letter::T => Some(Letter::S),
            Letter::U => Some(Letter::T),
            Letter::V => Some(Letter::U),
            Letter::W => Some(Letter::V),
            Letter::X => Some(Letter::W),
            Letter::Y => Some(Letter::X),
            Letter::Z => Some(Letter::Y),
        }
    }
}

} // verus!
