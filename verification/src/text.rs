//! Building blocks of rendered source text: numbers, concatenation and lines.
use vstd::prelude::*;

verus! {

/// `String::push` appends one character to the end of the string.
pub assume_specification[ String::push ](s: &mut String, c: char)
    ensures
        final(s)@ == old(s)@.push(c),
;

/// The decimal or hexadecimal digit of value `d`, in lower case.
pub open spec fn digit(d: nat) -> char {
    if d < 10 {
        ('0' as int + d) as char
    } else {
        ('a' as int + d - 10) as char
    }
}

/// The digits of `n` in base ten, most significant first, without leading zeros.
pub open spec fn decimal(n: nat) -> Seq<char>
    decreases n,
{
    if n < 10 {
        seq![digit(n)]
    } else {
        decimal(n / 10).push(digit(n % 10))
    }
}

/// The digits of `n` in base sixteen, most significant first, without leading zeros.
pub open spec fn hexadecimal(n: nat) -> Seq<char>
    decreases n,
{
    if n < 16 {
        seq![digit(n)]
    } else {
        hexadecimal(n / 16).push(digit(n % 16))
    }
}

/// `digits` with zeros in front, up to a length of `width`.
pub open spec fn zero_padded(digits: Seq<char>, width: nat) -> Seq<char> {
    if digits.len() < width {
        Seq::new((width - digits.len()) as nat, |i: int| '0') + digits
    } else {
        digits
    }
}

/// The decimal form of an integer, with a minus sign in front of a negative one.
pub open spec fn signed_decimal(n: int) -> Seq<char> {
    if n < 0 {
        seq!['-'] + decimal((-n) as nat)
    } else {
        decimal(n as nat)
    }
}

/// The Rust spelling of a truth value.
pub open spec fn truth(b: bool) -> Seq<char> {
    if b {
        "true"@
    } else {
        "false"@
    }
}

/// The white space in front of a line at the given nesting level.
pub open spec fn indent(level: nat) -> Seq<char>
    decreases level,
{
    if level == 0 {
        Seq::empty()
    } else {
        indent((level - 1) as nat) + "    "@
    }
}

/// A line at the given nesting level.
pub open spec fn line(level: nat, content: Seq<char>) -> Seq<char> {
    indent(level) + content
}

/// The given contents as lines at one nesting level.
pub open spec fn lines_at(level: nat, contents: Seq<Seq<char>>) -> Seq<Seq<char>> {
    contents.map_values(|content: Seq<char>| line(level, content))
}

/// The text that consists of the given lines, each ended by a line feed.
pub open spec fn text_of(lines: Seq<Seq<char>>) -> Seq<char>
    decreases lines.len(),
{
    if lines.len() == 0 {
        Seq::empty()
    } else {
        text_of(lines.drop_last()) + lines.last() + "\n"@
    }
}

/// The lines of an array: its head, its rows, and its end.
pub open spec fn array_lines(head: Seq<char>, rows: Seq<Seq<char>>) -> Seq<Seq<char>> {
    seq![head] + lines_at(1, rows) + seq!["];"@, ""@]
}

/// Different numbers have different decimal forms.
pub proof fn lemma_decimal_injective(a: nat, b: nat)
    requires
        decimal(a) == decimal(b),
    ensures
        a == b,
    decreases a,
{
    if a >= 10 && b >= 10 {
        assert(decimal(a).drop_last() =~= decimal(a / 10));
        assert(decimal(b).drop_last() =~= decimal(b / 10));
        lemma_decimal_injective(a / 10, b / 10);
        assert(decimal(a).last() == digit(a % 10));
        assert(decimal(b).last() == digit(b % 10));
    } else if a >= 10 {
        lemma_decimal_nonempty(a / 10);
        assert(decimal(a).len() == 1);
    } else if b >= 10 {
        lemma_decimal_nonempty(b / 10);
        assert(decimal(b).len() == 1);
    } else {
        assert(decimal(a)[0] == digit(a));
        assert(decimal(b)[0] == digit(b));
    }
}

/// Every number has at least one digit.
pub proof fn lemma_decimal_nonempty(n: nat)
    ensures
        decimal(n).len() >= 1,
    decreases n,
{
    if n >= 10 {
        lemma_decimal_nonempty(n / 10);
    }
}

/// The text of a concatenation of lines is the concatenation of their texts.
pub proof fn lemma_text_of_concat(a: Seq<Seq<char>>, b: Seq<Seq<char>>)
    ensures
        text_of(a + b) == text_of(a) + text_of(b),
    decreases b.len(),
{
    if b.len() == 0 {
        assert(a + b =~= a);
        assert(text_of(a) + text_of(b) =~= text_of(a));
    } else {
        lemma_text_of_concat(a, b.drop_last());
        assert((a + b).drop_last() =~= a + b.drop_last());
        assert(text_of(a + b) =~= text_of(a) + text_of(b));
    }
}

/// The digit of value `d`.
fn digit_char(d: u8) -> (c: char)
    requires
        d < 16,
    ensures
        c == digit(d as nat),
{
    if d < 10 {
        (48u8 + d) as char
    } else {
        (87u8 + d) as char
    }
}

/// The decimal form of `n`.
pub fn decimal_text(n: u64) -> (r: String)
    ensures
        r@ == decimal(n as nat),
    decreases n,
{
    let last: char = digit_char((n % 10) as u8);
    if n < 10 {
        let mut r: String = String::new();
        r.push(last);
        assert(r@ =~= seq![digit(n as nat)]);
        r
    } else {
        let mut r: String = decimal_text(n / 10);
        r.push(last);
        r
    }
}

/// The decimal form of a length or an index.
pub fn count_text(n: usize) -> (r: String)
    ensures
        r@ == decimal(n as nat),
{
    decimal_text(n as u64)
}

/// The decimal form of a signed number.
pub fn signed_text(n: i32) -> (r: String)
    ensures
        r@ == signed_decimal(n as int),
{
    if n < 0 {
        let mut r: String = String::new();
        r.push('-');
        assert(r@ =~= seq!['-']);
        let magnitude: i64 = -(n as i64);
        r.append(decimal_text(magnitude as u64).as_str());
        r
    } else {
        decimal_text(n as u64)
    }
}

/// The hexadecimal form of `n`.
fn hexadecimal_text(n: u32) -> (r: String)
    ensures
        r@ == hexadecimal(n as nat),
    decreases n,
{
    let last: char = digit_char((n % 16) as u8);
    if n < 16 {
        let mut r: String = String::new();
        r.push(last);
        assert(r@ =~= seq![digit(n as nat)]);
        r
    } else {
        let mut r: String = hexadecimal_text(n / 16);
        r.push(last);
        r
    }
}

/// The number of hexadecimal digits of `n`.
fn hexadecimal_len(n: u32) -> (len: usize)
    ensures
        len == hexadecimal(n as nat).len(),
        1 <= len <= n + 1,
    decreases n,
{
    if n < 16 {
        1
    } else {
        1 + hexadecimal_len(n / 16)
    }
}

/// The hexadecimal form of `n`, padded with zeros to `width` digits.
pub fn padded_hexadecimal_text(n: u32, width: usize) -> (r: String)
    ensures
        r@ == zero_padded(hexadecimal(n as nat), width as nat),
{
    let len: usize = hexadecimal_len(n);
    let mut r: String = String::new();
    let mut missing: usize = if len < width {
        width - len
    } else {
        0
    };
    let ghost total: nat = missing as nat;
    while missing > 0
        invariant
            missing <= total,
            r@ == Seq::new((total - missing) as nat, |i: int| '0'),
        decreases missing,
    {
        r.push('0');
        missing -= 1;
        assert(r@ =~= Seq::new((total - missing) as nat, |i: int| '0'));
    }
    r.append(hexadecimal_text(n).as_str());
    assert(r@ =~= zero_padded(hexadecimal(n as nat), width as nat));
    r
}

/// The Rust spelling of a truth value.
pub fn truth_text(b: bool) -> (r: &'static str)
    ensures
        r@ == truth(b),
{
    if b {
        "true"
    } else {
        "false"
    }
}

pub fn concat2(a: &str, b: &str) -> (r: String)
    ensures
        r@ == a@ + b@,
{
    let mut r: String = a.to_owned();
    r.append(b);
    r
}

pub fn concat3(a: &str, b: &str, c: &str) -> (r: String)
    ensures
        r@ == a@ + b@ + c@,
{
    let mut r: String = concat2(a, b);
    r.append(c);
    r
}

pub fn concat4(a: &str, b: &str, c: &str, d: &str) -> (r: String)
    ensures
        r@ == a@ + b@ + c@ + d@,
{
    let mut r: String = concat3(a, b, c);
    r.append(d);
    r
}

pub fn concat5(a: &str, b: &str, c: &str, d: &str, e: &str) -> (r: String)
    ensures
        r@ == a@ + b@ + c@ + d@ + e@,
{
    let mut r: String = concat4(a, b, c, d);
    r.append(e);
    r
}

pub fn concat7(a: &str, b: &str, c: &str, d: &str, e: &str, f: &str, g: &str) -> (r: String)
    ensures
        r@ == a@ + b@ + c@ + d@ + e@ + f@ + g@,
{
    let mut r: String = concat5(a, b, c, d, e);
    r.append(f);
    r.append(g);
    r
}

/// The white space of a nesting level.
pub fn indent_text(level: usize) -> (r: String)
    ensures
        r@ == indent(level as nat),
{
    let mut r: String = String::new();
    let mut done: usize = 0;
    while done < level
        invariant
            done <= level,
            r@ == indent(done as nat),
        decreases level - done,
    {
        r.append("    ");
        done += 1;
    }
    r
}

/// A growing list of texts: the lines of a section, or a list of names.
pub struct TextList {
    pub lines: Vec<String>,
}

impl View for TextList {
    type V = Seq<Seq<char>>;

    open spec fn view(&self) -> Seq<Seq<char>> {
        self.lines@.map_values(|s: String| s@)
    }
}

impl TextList {
    /// No lines.
    pub fn new() -> (r: Self)
        ensures
            r@ == Seq::<Seq<char>>::empty(),
    {
        let r: TextList = TextList { lines: Vec::new() };
        assert(r@ =~= Seq::<Seq<char>>::empty());
        r
    }

    /// The number of lines.
    pub fn len(&self) -> (n: usize)
        ensures
            n == self@.len(),
    {
        self.lines.len()
    }

    /// Adds a line without white space in front.
    pub fn push(&mut self, content: String)
        ensures
            final(self)@ == old(self)@.push(content@),
    {
        self.lines.push(content);
        assert(self@ =~= old(self)@.push(content@));
    }

    /// Adds a line at the given nesting level.
    pub fn add_line(&mut self, level: usize, content: &str)
        ensures
            final(self)@ == old(self)@.push(line(level as nat, content@)),
    {
        self.push(concat2(indent_text(level).as_str(), content));
    }

    /// Adds each of `contents` as a line at the given nesting level.
    pub fn add_lines_at(&mut self, level: usize, contents: &TextList)
        ensures
            final(self)@ == old(self)@ + lines_at(level as nat, contents@),
    {
        let mut i: usize = 0;
        assert(self@ =~= old(self)@ + lines_at(level as nat, contents@).take(0));
        while i < contents.lines.len()
            invariant
                i <= contents.lines.len(),
                self@ == old(self)@ + lines_at(level as nat, contents@).take(i as int),
            decreases contents.lines.len() - i,
        {
            self.add_line(level, contents.lines[i].as_str());
            i += 1;
            assert(self@ =~= old(self)@ + lines_at(level as nat, contents@).take(i as int));
        }
        assert(lines_at(level as nat, contents@).take(i as int) =~= lines_at(level as nat, contents@));
    }

    /// Adds the lines of `other` as they are.
    pub fn append(&mut self, mut other: TextList)
        ensures
            final(self)@ == old(self)@ + other@,
    {
        let ghost added = other@;
        self.lines.append(&mut other.lines);
        assert(self@ =~= old(self)@ + added);
    }

    /// Adds an array with the given rows.
    pub fn add_array(&mut self, head: String, rows: &TextList)
        ensures
            final(self)@ == old(self)@ + array_lines(head@, rows@),
    {
        self.push(head);
        self.add_lines_at(1, rows);
        self.push("];".to_owned());
        self.push("".to_owned());
        assert(self@ =~= old(self)@ + array_lines(head@, rows@));
    }

    /// The text of all lines.
    pub fn text(&self) -> (r: String)
        ensures
            r@ == text_of(self@),
    {
        let mut r: String = String::new();
        let mut i: usize = 0;
        assert(self@.take(0) =~= Seq::<Seq<char>>::empty());
        while i < self.lines.len()
            invariant
                i <= self.lines.len(),
                r@ == text_of(self@.take(i as int)),
            decreases self.lines.len() - i,
        {
            r.append(self.lines[i].as_str());
            r.append("\n");
            i += 1;
            assert(self@.take(i as int).drop_last() =~= self@.take(i - 1));
        }
        assert(self@.take(i as int) =~= self@);
        r
    }
}

} // verus!
