//! Where things go on the screen: rectangles of terminal cells.
use vstd::prelude::*;

verus! {

/// A rectangle of terminal cells: its top left corner and its size.
#[derive(Clone, Copy, PartialEq, Eq, Structural, Debug)]
pub struct Area {
    pub x: u16,
    pub y: u16,
    pub width: u16,
    pub height: u16,
}

/// A rectangle at `(x, y)` of the given size, cut down so that it ends
/// within the screen's coordinates.
pub open spec fn clamped_area(x: u16, y: u16, width: u16, height: u16) -> Area {
    Area {
        x,
        y,
        width: if width > u16::MAX - x { (u16::MAX - x) as u16 } else { width },
        height: if height > u16::MAX - y { (u16::MAX - y) as u16 } else { height },
    }
}

impl Area {
    /// The rectangle at `(x, y)` of the given size, cut down so that it ends
    /// within the screen's coordinates.
    pub fn new(x: u16, y: u16, width: u16, height: u16) -> (a: Area)
        ensures
            a == clamped_area(x, y, width, height),
    {
        let max_width = u16::MAX - x;
        let max_height = u16::MAX - y;
        let width = if width > max_width { max_width } else { width };
        let height = if height > max_height { max_height } else { height };
        Area { x, y, width, height }
    }
}

/// `a - b`, or 0 when `b` is larger.
pub open spec fn sat_sub(a: u16, b: u16) -> u16 {
    if a >= b { (a - b) as u16 } else { 0 }
}

/// The smaller of `a` and `b`.
pub open spec fn min16(a: u16, b: u16) -> u16 {
    if a <= b { a } else { b }
}

/// The rectangle of `width` by `height` centred in `area`, shrunk to fit it.
pub open spec fn centered(width: u16, height: u16, area: Area) -> Area {
    clamped_area(
        (area.x + sat_sub(area.width, width) / 2) as u16,
        (area.y + sat_sub(area.height, height) / 2) as u16,
        min16(width, area.width),
        min16(height, area.height),
    )
}

/// Centres a rectangle of `width` by `height` in `area`, shrunk to fit it.
pub fn get_centered_rect(width: u16, height: u16, area: Area) -> (r: Area)
    requires
        area.x + sat_sub(area.width, width) / 2 <= u16::MAX,
        area.y + sat_sub(area.height, height) / 2 <= u16::MAX,
    ensures
        r == centered(width, height, area),
{
    let x = area.width.saturating_sub(width) / 2;
    let y = area.height.saturating_sub(height) / 2;
    Area::new(
        area.x + x,
        area.y + y,
        if width <= area.width { width } else { area.width },
        if height <= area.height { height } else { area.height },
    )
}

// ---------------------------------------------------------------------------
// Lines of text
// ---------------------------------------------------------------------------

/// `s` cut at every `'\n'`: one more piece than there are newlines, the
/// newlines themselves dropped.
pub open spec fn pieces(s: Seq<char>) -> Seq<Seq<char>>
    decreases s.len(),
{
    if s.len() == 0 {
        seq![Seq::<char>::empty()]
    } else {
        let p = pieces(s.drop_last());
        if s.last() == '\n' {
            p.push(Seq::<char>::empty())
        } else {
            p.update(p.len() - 1, p.last().push(s.last()))
        }
    }
}

/// A piece that ended at a newline, without the `'\r'` of a `"\r\n"`.
pub open spec fn strip_cr(l: Seq<char>) -> Seq<char> {
    if l.len() > 0 && l.last() == '\r' {
        l.drop_last()
    } else {
        l
    }
}

/// The lines of `s` as `str::lines` gives them: split at `"\n"` and
/// `"\r\n"`, where a last empty piece (after a final line ending, or of an
/// empty text) is no line.
pub open spec fn text_lines(s: Seq<char>) -> Seq<Seq<char>> {
    let p = pieces(s);
    let ended = Seq::new((p.len() - 1) as nat, |i: int| strip_cr(p[i]));
    if p.last().len() == 0 {
        ended
    } else {
        ended.push(p.last())
    }
}

/// The length of the longest line, 0 when there is none.
pub open spec fn widest(lines: Seq<Seq<char>>) -> nat
    decreases lines.len(),
{
    if lines.len() == 0 {
        0
    } else {
        let w = widest(lines.drop_last());
        if lines.last().len() > w {
            lines.last().len()
        } else {
            w
        }
    }
}

/// `a + b`, or `u16::MAX` when the sum is larger.
pub open spec fn sat_add(a: u16, b: u16) -> u16 {
    if a + b <= u16::MAX { (a + b) as u16 } else { u16::MAX }
}

/// The popup rectangle for `text` on `screen`: the text's widest line plus
/// four columns by its line count plus two rows, shrunk to the screen and
/// centred on it. Its corner lies at the screen's corner plus half the room
/// left over in each direction (kept within the coordinate space).
pub open spec fn popup(text: Seq<char>, screen: Area) -> Area {
    let lines = text_lines(text);
    let content_width = widest(lines) as u16;
    let content_height = lines.len() as u16;
    let width = min16((content_width + 4) as u16, screen.width);
    let height = min16((content_height + 2) as u16, screen.height);
    clamped_area(
        sat_add(screen.x, ((screen.width - width) / 2) as u16),
        sat_add(screen.y, ((screen.height - height) / 2) as u16),
        width,
        height,
    )
}

/// The text's widest line, in characters, and its number of lines.
pub fn measure_text(text: &str) -> (r: (usize, usize))
    ensures
        r.0 == widest(text_lines(text@)),
        r.1 == text_lines(text@).len(),
{
    let n = text.unicode_len();
    let mut cur: usize = 0;
    let mut cr = false;
    let mut widest_done: usize = 0;
    let mut count: usize = 0;
    let mut i: usize = 0;
    let ghost s = text@;
    proof {
        assert(s.take(0) =~= Seq::<char>::empty());
    }
    while i < n
        invariant
            i <= n,
            n == s.len(),
            s == text@,
            ({
                let p = pieces(s.take(i as int));
                &&& cur == p.last().len()
                &&& cr == (p.last().len() > 0 && p.last().last() == '\r')
                &&& count == p.len() - 1
                &&& widest_done == widest(Seq::new((p.len() - 1) as nat, |j: int| strip_cr(p[j])))
            }),
            count <= i,
            cur <= i,
        decreases n - i,
    {
        let c = text.get_char(i);
        let ghost p = pieces(s.take(i as int));
        proof {
            assert(s.take(i + 1).drop_last() =~= s.take(i as int));
            assert(s.take(i + 1).last() == c);
            lemma_pieces_len(s.take(i as int));
        }
        if c == '\n' {
            let w = if cr { cur - 1 } else { cur };
            if w > widest_done {
                widest_done = w;
            }
            count = count + 1;
            cur = 0;
            cr = false;
            proof {
                let p2 = pieces(s.take(i + 1));
                let e1 = Seq::new((p.len() - 1) as nat, |j: int| strip_cr(p[j]));
                let e2 = Seq::new((p2.len() - 1) as nat, |j: int| strip_cr(p2[j]));
                assert(e2.drop_last() =~= e1);
                assert(e2.last() == strip_cr(p.last()));
            }
        } else {
            cur = cur + 1;
            cr = c == '\r';
            proof {
                let p2 = pieces(s.take(i + 1));
                let e1 = Seq::new((p.len() - 1) as nat, |j: int| strip_cr(p[j]));
                let e2 = Seq::new((p2.len() - 1) as nat, |j: int| strip_cr(p2[j]));
                assert(e2 =~= e1);
            }
        }
        i = i + 1;
    }
    proof {
        assert(s.take(n as int) =~= s);
        lemma_pieces_len(s);
    }
    let ghost p = pieces(s);
    if cur > 0 {
        if cur > widest_done {
            widest_done = cur;
        }
        count = count + 1;
        proof {
            let e = Seq::new((p.len() - 1) as nat, |j: int| strip_cr(p[j]));
            assert(e.push(p.last()).drop_last() =~= e);
        }
    }
    (widest_done, count)
}

proof fn lemma_pieces_len(s: Seq<char>)
    ensures
        pieces(s).len() >= 1,
        pieces(s).len() <= s.len() + 1,
        pieces(s).len() - 1 + pieces(s).last().len() <= s.len(),
    decreases s.len(),
{
    if s.len() > 0 {
        lemma_pieces_len(s.drop_last());
    }
}

/// The popup rectangle for `text` on `screen`: the text's widest line plus
/// four columns by its line count plus two rows, shrunk to the screen and
/// centred on it.
pub fn get_adaptive_rect(text: &str, screen: Area) -> (r: Area)
    requires
        widest(text_lines(text@)) as u16 + 4 <= u16::MAX,
        text_lines(text@).len() as u16 + 2 <= u16::MAX,
    ensures
        r == popup(text@, screen),
{
    let (widest_line, line_count) = measure_text(text);
    let content_width = widest_line as u16;
    let content_height = line_count as u16;
    let width = if content_width + 4 <= screen.width { content_width + 4 } else { screen.width };
    let height = if content_height + 2 <= screen.height { content_height + 2 } else { screen.height };
    let x = screen.x.saturating_add((screen.width - width) / 2);
    let y = screen.y.saturating_add((screen.height - height) / 2);
    Area::new(x, y, width, height)
}

/// On a screen that ends within the coordinate space, the popup lies on the
/// screen and is centred on it: the room left of it equals the room right of
/// it or is one column less, and likewise above and below. It is the text's
/// widest line plus four columns wide and its line count plus two rows high,
/// or as wide or high as the screen where that is less.
pub proof fn lemma_popup_centred(text: Seq<char>, screen: Area)
    requires
        screen.x + screen.width <= u16::MAX,
        screen.y + screen.height <= u16::MAX,
        widest(text_lines(text)) + 4 <= u16::MAX,
        text_lines(text).len() + 2 <= u16::MAX,
    ensures
        ({
            let r = popup(text, screen);
            let want_w = widest(text_lines(text)) + 4;
            let want_h = text_lines(text).len() + 2;
            let left = r.x - screen.x;
            let right = (screen.x + screen.width) - (r.x + r.width);
            let top = r.y - screen.y;
            let bottom = (screen.y + screen.height) - (r.y + r.height);
            &&& r.width == if want_w <= screen.width { want_w } else { screen.width as nat }
            &&& r.height == if want_h <= screen.height { want_h } else { screen.height as nat }
            &&& 0 <= left <= right <= left + 1
            &&& 0 <= top <= bottom <= top + 1
        }),
{
}

/// Within an area that ends within the coordinate space, the centred
/// rectangle lies in the area, as large as asked or as the area where that
/// is smaller, with equal room on both sides or one more on the right (and
/// likewise below).
pub proof fn lemma_centered_in_area(width: u16, height: u16, area: Area)
    requires
        area.x + area.width <= u16::MAX,
        area.y + area.height <= u16::MAX,
    ensures
        ({
            let r = centered(width, height, area);
            let left = r.x - area.x;
            let right = (area.x + area.width) - (r.x + r.width);
            let top = r.y - area.y;
            let bottom = (area.y + area.height) - (r.y + r.height);
            &&& r.width == if width <= area.width { width } else { area.width }
            &&& r.height == if height <= area.height { height } else { area.height }
            &&& 0 <= left <= right <= left + 1
            &&& 0 <= top <= bottom <= top + 1
        }),
{
}

} // verus!
