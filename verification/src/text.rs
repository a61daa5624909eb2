//! Text as sequences of characters: reading a string, splitting it into
//! fields, and decimal numbers.

use vstd::prelude::*;

verus! {

/// `String::push`: the character is appended and nothing else changes.
pub assume_specification[ String::push ](s: &mut String, c: char)
    ensures
        final(s)@ == old(s)@.push(c),
;

/// The characters of `s`, in order.
pub fn chars_of(s: &str) -> (chars: Vec<char>)
    ensures
        chars@ == s@,
{
    let n = s.unicode_len();
    let mut chars: Vec<char> = Vec::new();
    let mut i: usize = 0;
    while i < n
        invariant
            i <= n,
            n == s@.len(),
            chars@ == s@.subrange(0, i as int),
        decreases n - i,
    {
        chars.push(s.get_char(i));
        i = i + 1;
        assert(chars@ =~= s@.subrange(0, i as int));
    }
    assert(s@.subrange(0, n as int) =~= s@);
    chars
}

/// Where the field that starts at `from` ends: at the next blank, or at
/// the end of the text.
pub open spec fn field_end(s: Seq<char>, from: int) -> int
    decreases s.len() - from,
{
    if from >= s.len() || s[from] == ' ' {
        from
    } else {
        field_end(s, from + 1)
    }
}

/// The field ends within the text, at a blank or at the end, and holds no
/// blank.
pub proof fn lemma_field_end(s: Seq<char>, from: int)
    requires
        0 <= from <= s.len(),
    ensures
        from <= field_end(s, from) <= s.len(),
        field_end(s, from) < s.len() ==> s[field_end(s, from)] == ' ',
        forall|i: int| from <= i < field_end(s, from) ==> s[i] != ' ',
    decreases s.len() - from,
{
    if from < s.len() && s[from] != ' ' {
        lemma_field_end(s, from + 1);
    }
}

/// Where the field that starts at `from` ends.
pub fn find_field_end(chars: &Vec<char>, from: usize) -> (end: usize)
    requires
        from <= chars.len(),
    ensures
        end == field_end(chars@, from as int),
        from <= end <= chars.len(),
{
    let mut i = from;
    proof {
        lemma_field_end(chars@, from as int);
    }
    while i < chars.len() && chars[i] != ' '
        invariant
            from <= i <= chars.len(),
            field_end(chars@, i as int) == field_end(chars@, from as int),
        decreases chars.len() - i,
    {
        i = i + 1;
    }
    i
}

/// The value of a decimal digit.
pub open spec fn digit_value(c: char) -> int {
    c as int - '0' as int
}

/// Whether `c` is one of the ten decimal digits.
pub open spec fn is_digit(c: char) -> bool {
    '0' <= c && c <= '9'
}

/// The number that the decimal digits `s[from..to]` stand for.
pub open spec fn digits_value(s: Seq<char>, from: int, to: int) -> int
    decreases to - from,
{
    if to <= from {
        0
    } else {
        10 * digits_value(s, from, to - 1) + digit_value(s[to - 1])
    }
}

/// All of `s[from..to]` are decimal digits.
pub open spec fn all_digits(s: Seq<char>, from: int, to: int) -> bool {
    forall|i: int| from <= i < to ==> is_digit(#[trigger] s[i])
}

/// The number that `s[from..to]` stands for as the text of a 32-bit
/// integer: an optional sign, then at least one digit and nothing else,
/// with a value that fits.
pub open spec fn int_value(s: Seq<char>, from: int, to: int) -> Option<int> {
    if from >= to {
        None
    } else {
        let signed = s[from] == '-' || s[from] == '+';
        let first = if signed {
            from + 1
        } else {
            from
        };
        let magnitude = digits_value(s, first, to);
        let value = if s[from] == '-' {
            -magnitude
        } else {
            magnitude
        };
        if first < to && all_digits(s, first, to) && i32::MIN <= value <= i32::MAX {
            Some(value)
        } else {
            None
        }
    }
}

/// Digits stand for a number that is not negative.
pub proof fn lemma_digits_nonnegative(s: Seq<char>, from: int, to: int)
    requires
        all_digits(s, from, to),
    ensures
        0 <= digits_value(s, from, to),
    decreases to - from,
{
    if from < to {
        lemma_digits_nonnegative(s, from, to - 1);
        assert(is_digit(s[to - 1]));
    }
}

/// A number with more digits is no smaller.
pub proof fn lemma_digits_grow(s: Seq<char>, from: int, mid: int, to: int)
    requires
        from <= mid <= to,
        all_digits(s, from, to),
    ensures
        0 <= digits_value(s, from, mid) <= digits_value(s, from, to),
    decreases to - mid,
{
    lemma_digits_nonnegative(s, from, mid);
    if mid < to {
        lemma_digits_grow(s, from, mid, to - 1);
        assert(is_digit(s[to - 1]));
    }
}

/// Reads `chars[from..to]` as a 32-bit integer.
pub fn parse_int(chars: &Vec<char>, from: usize, to: usize) -> (value: Option<i32>)
    requires
        from <= to <= chars.len(),
    ensures
        match value {
            Some(v) => int_value(chars@, from as int, to as int) == Some(v as int),
            None => int_value(chars@, from as int, to as int) is None,
        },
{
    if from >= to {
        return None;
    }
    let negative = chars[from] == '-';
    let first = if negative || chars[from] == '+' {
        from + 1
    } else {
        from
    };
    if first >= to {
        return None;
    }
    let mut magnitude: i64 = 0;
    let mut i = first;
    while i < to
        invariant
            from < to,
            first == if chars@[from as int] == '-' || chars@[from as int] == '+' {
                from + 1
            } else {
                from as int
            },
            first <= i <= to <= chars.len(),
            all_digits(chars@, first as int, i as int),
            magnitude == digits_value(chars@, first as int, i as int),
            0 <= magnitude <= 0x8000_0000,
        decreases to - i,
    {
        let c = chars[i];
        if !('0' <= c && c <= '9') {
            proof {
                assert(!is_digit(chars@[i as int]));
                assert(!all_digits(chars@, first as int, to as int));
            }
            return None;
        }
        let next = magnitude * 10 + ((c as u32 - '0' as u32) as i64);
        if next > 0x8000_0000 {
            proof {
                assert(digits_value(chars@, first as int, i + 1) == next);
                if all_digits(chars@, first as int, to as int) {
                    lemma_digits_grow(chars@, first as int, i + 1, to as int);
                }
            }
            return None;
        }
        magnitude = next;
        i = i + 1;
    }
    if negative {
        Some((-magnitude) as i32)
    } else if magnitude > 0x7fff_ffff {
        None
    } else {
        Some(magnitude as i32)
    }
}

/// The decimal digits of a number that is not negative, most significant
/// first; one digit at least.
pub open spec fn nat_text(n: int) -> Seq<char>
    decreases n,
{
    if n < 10 {
        seq![(('0' as int + n) as u8) as char]
    } else {
        nat_text(n / 10).push((('0' as int + n % 10) as u8) as char)
    }
}

/// The decimal text of an integer, with a minus sign if it is negative.
pub open spec fn int_text(n: int) -> Seq<char> {
    if n < 0 {
        seq!['-'] + nat_text(-n)
    } else {
        nat_text(n)
    }
}

/// Appends the decimal text of `n` to `s`.
pub fn push_int(s: &mut String, n: i32)
    ensures
        final(s)@ == old(s)@ + int_text(n as int),
{
    let mut magnitude: i64 = n as i64;
    if n < 0 {
        s.push('-');
        magnitude = -magnitude;
    }
    // The digits, least significant first.
    let mut digits: Vec<char> = Vec::new();
    let ghost whole = magnitude as int;
    let ghost prefix = s@;
    loop
        invariant_except_break
            0 <= magnitude,
            magnitude <= whole,
            nat_text(whole) == nat_text(magnitude as int) + digits@.reverse(),
        invariant
            0 <= whole <= 0x8000_0000,
            s@ == prefix,
        ensures
            digits@.len() >= 1,
            nat_text(whole) == digits@.reverse(),
        decreases magnitude,
    {
        let d = (magnitude % 10) as u8;
        let c = (('0' as u8) + d) as char;
        let ghost before = digits@;
        digits.push(c);
        proof {
            assert(digits@.reverse() =~= seq![c] + before.reverse());
        }
        if magnitude < 10 {
            proof {
                assert(nat_text(magnitude as int) =~= seq![c]);
                assert(nat_text(whole) =~= digits@.reverse());
            }
            break;
        }
        proof {
            assert(nat_text(magnitude as int) =~= nat_text(magnitude as int / 10).push(c));
            assert(nat_text(whole) =~= nat_text(magnitude as int / 10) + digits@.reverse());
        }
        magnitude = magnitude / 10;
    }
    let mut i = digits.len();
    while i > 0
        invariant
            i <= digits.len(),
            s@ == prefix + digits@.reverse().subrange(0, digits.len() - i),
        decreases i,
    {
        i = i - 1;
        s.push(digits[i]);
        proof {
            assert(digits@.reverse()[digits.len() - 1 - i] == digits@[i as int]);
            assert(s@ =~= prefix + digits@.reverse().subrange(0, digits.len() - i));
        }
    }
    proof {
        assert(digits@.reverse().subrange(0, digits.len() as int) =~= digits@.reverse());
        assert(s@ =~= old(s)@ + int_text(n as int));
    }
}

/// A field that holds no blank ends where the next blank stands, or where
/// the text ends.
pub proof fn lemma_field_ends_at(s: Seq<char>, from: int, end: int)
    requires
        0 <= from <= end <= s.len(),
        forall|i: int| from <= i < end ==> s[i] != ' ',
        end == s.len() || s[end] == ' ',
    ensures
        field_end(s, from) == end,
    decreases end - from,
{
    if from < end {
        lemma_field_ends_at(s, from + 1, end);
    }
}

/// The number that digits stand for depends on those digits alone.
pub proof fn lemma_digits_local(s: Seq<char>, from: int, to: int, t: Seq<char>, shift: int)
    requires
        forall|i: int| from <= i < to ==> s[i] == t[i + shift],
    ensures
        digits_value(s, from, to) == digits_value(t, from + shift, to + shift),
        all_digits(s, from, to) == all_digits(t, from + shift, to + shift),
    decreases to - from,
{
    if from < to {
        lemma_digits_local(s, from, to - 1, t, shift);
    }
    if all_digits(s, from, to) {
        assert forall|i: int| from + shift <= i < to + shift implies is_digit(#[trigger] t[i]) by {
            assert(is_digit(s[i - shift]));
        }
    }
    if all_digits(t, from + shift, to + shift) {
        assert forall|i: int| from <= i < to implies is_digit(#[trigger] s[i]) by {
            assert(is_digit(t[i + shift]));
        }
    }
}

/// The decimal text of a number that is not negative consists of digits
/// that stand for the number.
pub proof fn lemma_nat_text(n: int)
    requires
        0 <= n,
    ensures
        nat_text(n).len() >= 1,
        all_digits(nat_text(n), 0, nat_text(n).len() as int),
        digits_value(nat_text(n), 0, nat_text(n).len() as int) == n,
    decreases n,
{
    let t = nat_text(n);
    if n >= 10 {
        let head = nat_text(n / 10);
        lemma_nat_text(n / 10);
        let d = (('0' as int + n % 10) as u8) as char;
        assert(t == head.push(d));
        assert(digit_value(d) == n % 10);
        assert(is_digit(d));
        lemma_digits_local(t, 0, head.len() as int, head, 0);
        assert forall|i: int| 0 <= i < t.len() implies is_digit(#[trigger] t[i]) by {
            if i < head.len() {
                assert(is_digit(head[i]));
            }
        }
    } else {
        assert(t.len() == 1);
        assert(digits_value(t, 0, 0) == 0);
    }
}

/// The decimal text of a 32-bit integer, read as a number, is that
/// integer; and the text holds no blank.
pub proof fn lemma_int_text(n: int, s: Seq<char>, from: int)
    requires
        i32::MIN <= n <= i32::MAX,
        0 <= from,
        from + int_text(n).len() <= s.len(),
        forall|i: int| 0 <= i < int_text(n).len() ==> s[from + i] == int_text(n)[i],
    ensures
        int_value(s, from, from + int_text(n).len()) == Some(n),
        forall|i: int| 0 <= i < int_text(n).len() ==> int_text(n)[i] != ' ',
        int_text(n).len() >= 1,
{
    let t = int_text(n);
    let to = from + t.len();
    if n < 0 {
        let digits = nat_text(-n);
        lemma_nat_text(-n);
        assert(t[0] == '-');
        assert forall|i: int| from + 1 <= i < to implies s[i] == digits[i - from - 1] by {
            assert(s[from + (i - from)] == t[i - from]);
        }
        lemma_digits_local(s, from + 1, to, digits, -from - 1);
        assert forall|i: int| 0 <= i < t.len() implies t[i] != ' ' by {
            if i > 0 {
                assert(is_digit(digits[i - 1]));
            }
        }
    } else {
        lemma_nat_text(n);
        assert(is_digit(t[0]));
        assert(s[from] == t[0]);
        assert forall|i: int| from <= i < to implies s[i] == t[i - from] by {
            assert(s[from + (i - from)] == t[i - from]);
        }
        lemma_digits_local(s, from, to, t, -from);
        assert forall|i: int| 0 <= i < t.len() implies t[i] != ' ' by {
            assert(is_digit(t[i]));
        }
    }
}

/// The line of file letters above a drawn board.
pub open spec fn drawing_letters() -> Seq<char> {
    "     A   B   C   D   E   F   G   H\n"@
}

/// The line between two ranks of a drawn board.
pub open spec fn drawing_rule() -> Seq<char> {
    "   +---+---+---+---+---+---+---+---+\n"@
}

/// The cells of rank `r` of a drawn board from file `f` on.
pub open spec fn drawing_cells(cells: Seq<char>, r: int, f: int) -> Seq<char>
    decreases 8 - f,
{
    if f >= 8 {
        Seq::<char>::empty()
    } else {
        "| "@ + seq![cells[8 * r + f]] + " "@ + drawing_cells(cells, r, f + 1)
    }
}

/// Rank `r` of a drawn board: its number, its cells and the line below.
pub open spec fn drawing_rank(cells: Seq<char>, r: int) -> Seq<char> {
    " "@ + seq![(('1' as int + r) as u8) as char] + " "@ + drawing_cells(cells, r, 0) + "|\n"@
        + drawing_rule()
}

/// The ranks `r` down to the first of a drawn board.
pub open spec fn drawing_ranks(cells: Seq<char>, r: int) -> Seq<char>
    decreases r + 1,
{
    if r < 0 {
        Seq::<char>::empty()
    } else {
        drawing_rank(cells, r) + drawing_ranks(cells, r - 1)
    }
}

/// A board drawn as text, eighth rank first, with `cells[s]` in the cell
/// of square `s`, under a line of file letters.
pub open spec fn drawing(cells: Seq<char>) -> Seq<char> {
    "\n"@ + drawing_letters() + drawing_rule() + drawing_ranks(cells, 7)
}

/// Draws a board with `cells[s]` in the cell of square `s`.
pub fn draw_board(cells: &Vec<char>) -> (s: String)
    requires
        cells.len() == 64,
    ensures
        s@ == drawing(cells@),
{
    let mut s = String::from_str("\n");
    s.append("     A   B   C   D   E   F   G   H\n");
    s.append("   +---+---+---+---+---+---+---+---+\n");
    let ghost head = s@;
    let mut rank: u8 = 8;
    proof {
        assert(s@ + drawing_ranks(cells@, 7) =~= head + drawing_ranks(cells@, 7));
    }
    while rank > 0
        invariant
            rank <= 8,
            cells.len() == 64,
            s@ + drawing_ranks(cells@, rank - 1) == head + drawing_ranks(cells@, 7),
        decreases rank,
    {
        rank = rank - 1;
        let ghost at = s@;
        s.append(" ");
        s.push((('1' as u8) + rank) as char);
        s.append(" ");
        let ghost row = s@;
        let mut file: u8 = 0;
        proof {
            assert(s@ + drawing_cells(cells@, rank as int, 0) =~= row + drawing_cells(
                cells@,
                rank as int,
                0,
            ));
        }
        while file < 8
            invariant
                file <= 8,
                rank < 8,
                cells.len() == 64,
                s@ + drawing_cells(cells@, rank as int, file as int) == row + drawing_cells(
                    cells@,
                    rank as int,
                    0,
                ),
            decreases 8 - file,
        {
            let ghost cell_at = s@;
            s.append("| ");
            s.push(cells[(rank * 8 + file) as usize]);
            s.append(" ");
            proof {
                assert(s@ + drawing_cells(cells@, rank as int, file + 1) =~= cell_at
                    + drawing_cells(cells@, rank as int, file as int));
            }
            file = file + 1;
        }
        s.append("|\n");
        s.append("   +---+---+---+---+---+---+---+---+\n");
        proof {
            assert(s@ =~= at + drawing_rank(cells@, rank as int));
            assert(s@ + drawing_ranks(cells@, rank - 1) =~= at + drawing_ranks(
                cells@,
                rank as int,
            ));
        }
    }
    proof {
        assert(s@ =~= drawing(cells@));
    }
    s
}

} // verus!
