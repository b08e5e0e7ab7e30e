use vstd::prelude::*;

verus! {

/// A 20-byte SHA-1 digest that names a swarm.
#[derive(Clone, Copy, Debug)]
pub struct InfoHash(pub [u8; 20]);

/// A 20-byte identifier that a peer chooses for itself.
#[derive(Clone, Copy, Debug)]
pub struct PeerId(pub [u8; 20]);

impl View for InfoHash {
    type V = Seq<u8>;

    open spec fn view(&self) -> Seq<u8> {
        self.0@
    }
}

impl View for PeerId {
    type V = Seq<u8>;

    open spec fn view(&self) -> Seq<u8> {
        self.0@
    }
}

/// Bytewise equality of two 20-byte identifiers.
pub fn bytes20_eq(a: &[u8; 20], b: &[u8; 20]) -> (r: bool)
    ensures
        r == (a@ == b@),
{
    let mut i: usize = 0;
    while i < 20
        invariant
            i <= 20,
            a@.len() == 20,
            b@.len() == 20,
            forall|j: int| 0 <= j < i ==> a@[j] == b@[j],
        decreases 20 - i,
    {
        if a[i] != b[i] {
            return false;
        }
        i = i + 1;
    }
    assert(a@ =~= b@);
    true
}

impl InfoHash {
    pub fn equals(&self, other: &InfoHash) -> (r: bool)
        ensures
            r == (self@ == other@),
    {
        bytes20_eq(&self.0, &other.0)
    }
}

impl PeerId {
    pub fn equals(&self, other: &PeerId) -> (r: bool)
        ensures
            r == (self@ == other@),
    {
        bytes20_eq(&self.0, &other.0)
    }
}


/// The lowercase ASCII hex digit for a value below 16.
pub open spec fn hex_digit(n: int) -> u8 {
    if n < 10 {
        (48 + n) as u8
    } else {
        (87 + n) as u8
    }
}

/// The value of an ASCII hex digit of either case.
pub open spec fn digit_value(c: u8) -> Option<int> {
    if 48 <= c <= 57 {
        Some(c - 48)
    } else if 97 <= c <= 102 {
        Some(c - 87)
    } else if 65 <= c <= 70 {
        Some(c - 55)
    } else {
        None
    }
}

/// Two lowercase hex digits per byte, high nibble first.
pub open spec fn hex_of(b: Seq<u8>) -> Seq<u8> {
    Seq::new(
        2 * b.len(),
        |i: int|
            if i % 2 == 0 {
                hex_digit(b[i / 2] as int / 16)
            } else {
                hex_digit(b[i / 2] as int % 16)
            },
    )
}

/// The text is 40 hex digits, of either case.
pub open spec fn is_hex40(s: Seq<u8>) -> bool {
    s.len() == 40 && forall|i: int| 0 <= i < 40 ==> (#[trigger] digit_value(s[i])).is_some()
}

/// The bytes that 40 hex digits stand for.
pub open spec fn bytes_of_hex(s: Seq<u8>) -> Seq<u8> {
    Seq::new(
        20,
        |i: int| (digit_value(s[2 * i]).unwrap() * 16 + digit_value(s[2 * i + 1]).unwrap()) as u8,
    )
}

fn nibble_char(n: u8) -> (r: u8)
    requires
        n < 16,
    ensures
        r == hex_digit(n as int),
{
    if n < 10 {
        48 + n
    } else {
        87 + n
    }
}

fn char_value(c: u8) -> (r: Option<u8>)
    ensures
        r.is_some() == digit_value(c).is_some(),
        r.is_some() ==> r.unwrap() as int == digit_value(c).unwrap(),
        r.is_some() ==> r.unwrap() < 16,
{
    if 48 <= c && c <= 57 {
        Some(c - 48)
    } else if 97 <= c && c <= 102 {
        Some(c - 87)
    } else if 65 <= c && c <= 70 {
        Some(c - 55)
    } else {
        None
    }
}

impl InfoHash {
    /// The 40-character lowercase hex text of the hash, as ASCII bytes.
    pub fn to_hex(&self) -> (r: Vec<u8>)
        ensures
            r@ == hex_of(self@),
    {
        let mut out: Vec<u8> = Vec::new();
        let mut i: usize = 0;
        while i < 20
            invariant
                i <= 20,
                self@.len() == 20,
                out@.len() == 2 * i,
                forall|j: int| 0 <= j < 2 * i ==> out@[j] == hex_of(self@)[j],
            decreases 20 - i,
        {
            let b = self.0[i];
            out.push(nibble_char(b / 16));
            out.push(nibble_char(b % 16));
            i = i + 1;
        }
        assert(out@ =~= hex_of(self@));
        out
    }

    /// Parses 40 hex digits of either case; `None` for any other text.
    pub fn from_hex(s: &[u8]) -> (r: Option<InfoHash>)
        ensures
            r.is_some() == is_hex40(s@),
            r.is_some() ==> r.unwrap()@ == bytes_of_hex(s@),
    {
        if s.len() != 40 {
            return None;
        }
        let mut out: [u8; 20] = [0u8; 20];
        let mut i: usize = 0;
        while i < 20
            invariant
                i <= 20,
                s@.len() == 40,
                out@.len() == 20,
                forall|j: int| 0 <= j < 2 * i ==> (#[trigger] digit_value(s@[j])).is_some(),
                forall|j: int| 0 <= j < i ==> out@[j] == bytes_of_hex(s@)[j],
            decreases 20 - i,
        {
            let hi = char_value(s[2 * i]);
            let lo = char_value(s[2 * i + 1]);
            match (hi, lo) {
                (Some(h), Some(l)) => {
                    out[i] = h * 16 + l;
                    assert(digit_value(s@[2 * i as int]).is_some());
                    assert(digit_value(s@[2 * i as int + 1]).is_some());
                },
                _ => {
                    assert(!digit_value(s@[2 * i as int]).is_some() || !digit_value(s@[2 * i as int + 1]).is_some());
                    return None;
                },
            }
            i = i + 1;
        }
        let r = InfoHash(out);
        assert(r@ =~= bytes_of_hex(s@));
        Some(r)
    }
}

} // verus!
