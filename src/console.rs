use vstd::prelude::*;
use vstd::string::*;

use crate::prototype::PrototypeId;

verus! {

/// Where a console command spawns an entity: at the player, or at explicit
/// coordinates.
#[derive(Debug, PartialEq)]
pub enum Position<C> {
    Player,
    Custom(C, C, C),
}

/// A position argument once trimmed and cut at its commas, before the
/// coordinates are read as numbers.
#[derive(Debug, PartialEq)]
pub enum PositionFields {
    Player,
    Coordinates(Vec<Vec<char>>),
}

/// The result of `str::to_lowercase` on a text.
pub uninterp spec fn lowered(s: Seq<char>) -> Seq<char>;

/// Relies on `str::to_lowercase`: the lowercase form of the text, which
/// depends on the text alone.
#[verifier::external_body]
fn lowercase(s: &str) -> (r: String)
    ensures
        r@ == lowered(s@),
{
    s.to_lowercase()
}

/// Which characters are stripped from both ends of a text.
#[derive(Clone, Copy, PartialEq, Eq, Structural, Debug, Hash)]
pub enum Strip {
    /// Parentheses, `(` and `)`.
    Parens,
    /// Unicode whitespace: the characters with the `White_Space` property.
    Whitespace,
}

/// The character has the Unicode `White_Space` property.
pub open spec fn is_white_space(c: char) -> bool {
    let u = c as u32;
    ||| 0x09 <= u <= 0x0d
    ||| u == 0x20 || u == 0x85 || u == 0xa0 || u == 0x1680
    ||| 0x2000 <= u <= 0x200a
    ||| u == 0x2028 || u == 0x2029 || u == 0x202f || u == 0x205f || u == 0x3000
}

pub open spec fn strips(k: Strip, c: char) -> bool {
    match k {
        Strip::Parens => c == '(' || c == ')',
        Strip::Whitespace => is_white_space(c),
    }
}

fn strips_char(k: Strip, c: char) -> (r: bool)
    ensures
        r == strips(k, c),
{
    match k {
        Strip::Parens => c == '(' || c == ')',
        Strip::Whitespace => {
            let u = c as u32;
            (0x09 <= u && u <= 0x0d) || u == 0x20 || u == 0x85 || u == 0xa0 || u == 0x1680 || (
            0x2000 <= u && u <= 0x200a) || u == 0x2028 || u == 0x2029 || u == 0x202f || u == 0x205f
                || u == 0x3000
        },
    }
}

/// The number of stripped characters that open the text.
pub open spec fn leading_run(k: Strip, s: Seq<char>) -> nat
    decreases s.len(),
{
    if s.len() > 0 && strips(k, s[0]) {
        1 + leading_run(k, s.drop_first())
    } else {
        0
    }
}

/// The number of stripped characters that close the text.
pub open spec fn trailing_run(k: Strip, s: Seq<char>) -> nat
    decreases s.len(),
{
    if s.len() > 0 && strips(k, s.last()) {
        1 + trailing_run(k, s.drop_last())
    } else {
        0
    }
}

/// The text without the stripped characters that open and close it.
pub open spec fn strip(k: Strip, s: Seq<char>) -> Seq<char> {
    let a = leading_run(k, s);
    if a == s.len() {
        Seq::empty()
    } else {
        s.subrange(a as int, s.len() - trailing_run(k, s))
    }
}

/// The pieces of a text between commas, read from the left: the pieces
/// already closed by a comma, and the piece still open.
pub open spec fn split_pieces(s: Seq<char>) -> (Seq<Seq<char>>, Seq<char>)
    decreases s.len(),
{
    if s.len() == 0 {
        (Seq::empty(), Seq::empty())
    } else {
        let (done, cur) = split_pieces(s.drop_last());
        if s.last() == ',' {
            (done.push(cur), Seq::empty())
        } else {
            (done, cur.push(s.last()))
        }
    }
}

/// The text cut at its commas, where a comma ends a piece rather than
/// starting a new one: a final empty piece is left out.
pub open spec fn split_at_commas(s: Seq<char>) -> Seq<Seq<char>> {
    let (done, cur) = split_pieces(s);
    if cur.len() == 0 {
        done
    } else {
        done.push(cur)
    }
}

pub open spec fn fields_view(f: PositionFields) -> Option<Seq<Seq<char>>> {
    match f {
        PositionFields::Player => None,
        PositionFields::Coordinates(v) => Some(v@.map_values(|p: Vec<char>| p@)),
    }
}

/// What a position argument means once trimmed, stripped of parentheses and
/// lowercased: `@p` is the player, anything else a list of coordinates.
pub open spec fn fields_of(v: Seq<char>) -> Option<Seq<Seq<char>>> {
    if v == seq!['@', 'p'] {
        None
    } else {
        Some(split_at_commas(v))
    }
}

fn leading_count(k: Strip, s: &str) -> (r: usize)
    ensures
        r == leading_run(k, s@),
{
    let n = s.unicode_len();
    let mut i: usize = 0;
    proof {
        assert(s@.subrange(0, n as int) =~= s@);
    }
    while i < n && strips_char(k, s.get_char(i))
        invariant
            n == s@.len(),
            i <= n,
            leading_run(k, s@) == i + leading_run(k, s@.subrange(i as int, n as int)),
        decreases n - i,
    {
        proof {
            let t = s@.subrange(i as int, n as int);
            assert(t.drop_first() =~= s@.subrange(i + 1, n as int));
        }
        i = i + 1;
    }
    proof {
        let t = s@.subrange(i as int, n as int);
        assert(t.len() == 0 || !strips(k, t[0]));
    }
    i
}

fn trailing_count(k: Strip, s: &str) -> (r: usize)
    ensures
        r == trailing_run(k, s@),
{
    let n = s.unicode_len();
    let mut i: usize = 0;
    proof {
        assert(s@.subrange(0, n as int) =~= s@);
    }
    while i < n && strips_char(k, s.get_char(n - 1 - i))
        invariant
            n == s@.len(),
            i <= n,
            trailing_run(k, s@) == i + trailing_run(k, s@.subrange(0, n - i)),
        decreases n - i,
    {
        proof {
            let t = s@.subrange(0, n - i);
            assert(t.drop_last() =~= s@.subrange(0, n - i - 1));
        }
        i = i + 1;
    }
    i
}

proof fn lemma_runs_bounded(k: Strip, s: Seq<char>)
    ensures
        leading_run(k, s) <= s.len(),
        trailing_run(k, s) <= s.len(),
        leading_run(k, s) < s.len() ==> leading_run(k, s) + trailing_run(k, s) <= s.len(),
    decreases s.len(),
{
    if s.len() > 0 {
        lemma_runs_bounded(k, s.drop_first());
        lemma_runs_bounded(k, s.drop_last());
        if leading_run(k, s) < s.len() {
            lemma_leading_stops(k, s);
            lemma_trailing_stops(k, s, leading_run(k, s) as int);
        }
    }
}

/// Counting closing characters stops at a character that is not stripped.
proof fn lemma_trailing_stops(k: Strip, s: Seq<char>, j: int)
    requires
        0 <= j < s.len(),
        !strips(k, s[j]),
    ensures
        trailing_run(k, s) <= s.len() - j - 1,
    decreases s.len(),
{
    if j < s.len() - 1 {
        assert(s.drop_last()[j] == s[j]);
        lemma_trailing_stops(k, s.drop_last(), j);
    }
}

proof fn lemma_leading_stops(k: Strip, s: Seq<char>)
    ensures
        leading_run(k, s) < s.len() ==> !strips(k, s[leading_run(k, s) as int]),
    decreases s.len(),
{
    if s.len() > 0 && strips(k, s[0]) {
        lemma_leading_stops(k, s.drop_first());
        if leading_run(k, s) < s.len() {
            assert(s.drop_first()[leading_run(k, s.drop_first()) as int] == s[leading_run(
                k,
                s,
            ) as int]);
        }
    }
}

/// Removes the characters of kind `k` that open and close a text.
pub fn strip_of(k: Strip, s: &str) -> (r: &str)
    ensures
        r@ == strip(k, s@),
{
    let n = s.unicode_len();
    let a = leading_count(k, s);
    if a == n {
        let r = s.substring_char(0, 0);
        assert(r@ =~= Seq::<char>::empty());
        return r;
    }
    let b = trailing_count(k, s);
    proof {
        lemma_runs_bounded(k, s@);
        lemma_leading_stops(k, s@);
    }
    s.substring_char(a, n - b)
}

/// Cuts a text at its commas; a comma ends a piece, so a final empty piece
/// is left out.
pub fn split_commas(s: &str) -> (r: Vec<Vec<char>>)
    ensures
        r@.map_values(|p: Vec<char>| p@) == split_at_commas(s@),
{
    let n = s.unicode_len();
    let mut done: Vec<Vec<char>> = Vec::new();
    let mut cur: Vec<char> = Vec::new();
    let mut i: usize = 0;
    proof {
        assert(s@.subrange(0, 0) =~= Seq::<char>::empty());
        assert(done@.map_values(|p: Vec<char>| p@) =~= Seq::<Seq<char>>::empty());
    }
    while i < n
        invariant
            n == s@.len(),
            i <= n,
            (done@.map_values(|p: Vec<char>| p@), cur@) == split_pieces(s@.subrange(0, i as int)),
        decreases n - i,
    {
        let c = s.get_char(i);
        let ghost pre = s@.subrange(0, i as int);
        proof {
            assert(s@.subrange(0, i + 1).drop_last() =~= pre);
            assert(s@.subrange(0, i + 1).last() == c);
        }
        if c == ',' {
            let ghost before = done@.map_values(|p: Vec<char>| p@);
            let ghost cur_view = cur@;
            let piece = cur;
            cur = Vec::new();
            done.push(piece);
            proof {
                assert(done@.map_values(|p: Vec<char>| p@) =~= before.push(cur_view));
                assert(cur@ =~= Seq::<char>::empty());
            }
        } else {
            let ghost before = done@.map_values(|p: Vec<char>| p@);
            cur.push(c);
            proof {
                assert(done@.map_values(|p: Vec<char>| p@) =~= before);
            }
        }
        i = i + 1;
    }
    proof {
        assert(s@.subrange(0, n as int) =~= s@);
    }
    if cur.len() > 0 {
        let ghost before = done@.map_values(|p: Vec<char>| p@);
        let ghost cur_view = cur@;
        done.push(cur);
        proof {
            assert(done@.map_values(|p: Vec<char>| p@) =~= before.push(cur_view));
        }
    }
    done
}


/// Reads a position argument that is already trimmed, stripped of its
/// parentheses and lowercased.
pub fn fields_of_lowered(v: &str) -> (r: PositionFields)
    ensures
        fields_view(r) == fields_of(v@),
{
    if v.unicode_len() == 2 && v.get_char(0) == '@' && v.get_char(1) == 'p' {
        assert(v@ =~= seq!['@', 'p']);
        PositionFields::Player
    } else {
        PositionFields::Coordinates(split_commas(v))
    }
}

/// Reads a position argument: trims its whitespace, strips the parentheses
/// around it, lowercases it, and then reads it as [`fields_of_lowered`] does.
pub fn position_fields(input: &str) -> (r: PositionFields)
    ensures
        fields_view(r) == fields_of(
            lowered(strip(Strip::Parens, strip(Strip::Whitespace, input@))),
        ),
{
    let t = strip_of(Strip::Whitespace, input);
    let u = strip_of(Strip::Parens, t);
    let v = lowercase(u);
    fields_of_lowered(v.as_str())
}

/// The coordinate that could not be read.
#[derive(Clone, Copy, PartialEq, Eq, Structural, Debug, Hash)]
pub enum CoordinateError {
    X,
    YOrZ,
    Z,
}

impl CoordinateError {
    pub open spec fn message_spec(self) -> Seq<char> {
        let head = match self {
            CoordinateError::X => "Cannot parse X coordinate. "@,
            CoordinateError::YOrZ => "Cannot parse Y/Z coordinate. "@,
            CoordinateError::Z => "Cannot parse Z coordinate. "@,
        };
        head + "Supported values are (@p), (x,z), (x,y,z)."@
    }

    /// The text of the error: which coordinate failed, and the accepted forms.
    pub fn message(&self) -> (r: String)
        ensures
            r@ == self.message_spec(),
    {
        let mut text = match self {
            CoordinateError::X => String::from_str("Cannot parse X coordinate. "),
            CoordinateError::YOrZ => String::from_str("Cannot parse Y/Z coordinate. "),
            CoordinateError::Z => String::from_str("Cannot parse Z coordinate. "),
        };
        text.append("Supported values are (@p), (x,z), (x,y,z).");
        text
    }
}

/// The position given by the coordinates read from the fields, in order:
/// two coordinates are x and z on the ground (y is `zero`), three are x, y
/// and z, and any further field is ignored. `None` marks a field that is not
/// a number.
pub open spec fn position_of<C>(v: Seq<Option<C>>, zero: C) -> Result<Position<C>, CoordinateError> {
    if v.len() == 0 || v[0] is None {
        Err(CoordinateError::X)
    } else if v.len() == 1 || v[1] is None {
        Err(CoordinateError::YOrZ)
    } else if v.len() == 2 {
        Ok(Position::Custom(v[0]->0, zero, v[1]->0))
    } else if v[2] is None {
        Err(CoordinateError::Z)
    } else {
        Ok(Position::Custom(v[0]->0, v[1]->0, v[2]->0))
    }
}

/// Builds the position from the coordinates read from the fields; see
/// [`position_of`].
pub fn position_from_values<C: Copy>(values: &Vec<Option<C>>, zero: C) -> (r: Result<
    Position<C>,
    CoordinateError,
>)
    ensures
        r == position_of(values@, zero),
{
    if values.len() == 0 {
        return Err(CoordinateError::X);
    }
    let x = match values[0] {
        Some(x) => x,
        None => return Err(CoordinateError::X),
    };
    if values.len() == 1 {
        return Err(CoordinateError::YOrZ);
    }
    let y = match values[1] {
        Some(y) => y,
        None => return Err(CoordinateError::YOrZ),
    };
    if values.len() == 2 {
        return Ok(Position::Custom(x, zero, y));
    }
    match values[2] {
        Some(z) => Ok(Position::Custom(x, y, z)),
        None => Err(CoordinateError::Z),
    }
}

/// The reply to text that does not parse as an identifier.
pub open spec fn id_error_spec(text: Seq<char>) -> Seq<char> {
    "Cannot parse id '"@ + text + "'"@
}

pub fn id_error_message(text: &str) -> (r: String)
    ensures
        r@ == id_error_spec(text@),
{
    let mut m = String::from_str("Cannot parse id '");
    m.append(text);
    m.append("'");
    m
}

/// Reads an identifier given to a console command, or says why it cannot.
pub fn parse_id<K: PrototypeId>(text: &str) -> (r: Result<K, String>)
    ensures
        r matches Ok(k) ==> K::parse_spec(text@) == Some(k),
        r matches Err(m) ==> K::parse_spec(text@) is None && m@ == id_error_spec(text@),
{
    match K::parse(text) {
        Some(k) => Ok(k),
        None => Err(id_error_message(text)),
    }
}

} // verus!
