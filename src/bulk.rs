use vstd::prelude::*;

verus! {

/// What one translation request gives back for one chunk: its number, the lines sent,
/// the translated lines received (possibly a different count) and the provider's usage
/// statistics, carried through untouched.
pub struct BulkTranslated<S> {
    pub number: i32,
    pub original_lines: Vec<String>,
    pub translated_lines: Vec<String>,
    pub stats: S,
}

/// The characters of each string of a sequence.
pub open spec fn texts(v: Seq<String>) -> Seq<Seq<char>> {
    v.map_values(|s: String| s@)
}

/// A line as it is embedded in a request: between a pair of paragraph markers.
pub open spec fn paragraph_of(line: Seq<char>) -> Seq<char> {
    "<paragraph>"@ + line + "</paragraph>"@
}

/// The parts joined into one text, with a newline between two neighbours.
pub open spec fn joined(parts: Seq<Seq<char>>) -> Seq<char>
    decreases parts.len(),
{
    if parts.len() == 0 {
        Seq::empty()
    } else if parts.len() == 1 {
        parts[0]
    } else {
        joined(parts.drop_last()) + seq!['\n'] + parts.last()
    }
}

/// Wraps each line in paragraph markers, keeping the order.
pub fn wrap_paragraphs(lines: &Vec<String>) -> (r: Vec<String>)
    ensures
        r@.len() == lines@.len(),
        forall|i: int| 0 <= i < lines@.len() ==> (#[trigger] r@[i])@ == paragraph_of(lines@[i]@),
{
    let mut out: Vec<String> = Vec::new();
    let mut i: usize = 0;
    while i < lines.len()
        invariant
            i <= lines@.len(),
            out@.len() == i,
            forall|j: int| 0 <= j < i ==> (#[trigger] out@[j])@ == paragraph_of(lines@[j]@),
        decreases lines@.len() - i,
    {
        let mut p = String::from_str("<paragraph>");
        p.append(lines[i].as_str());
        p.append("</paragraph>");
        proof {
            reveal_strlit("<paragraph>");
            reveal_strlit("</paragraph>");
        }
        out.push(p);
        i = i + 1;
    }
    out
}

/// Joins the parts into one text, a newline between two neighbours.
pub fn join_lines(parts: &Vec<String>) -> (r: String)
    ensures
        r@ == joined(texts(parts@)),
{
    let mut out = String::new();
    let mut i: usize = 0;
    while i < parts.len()
        invariant
            i <= parts@.len(),
            out@ == joined(texts(parts@.subrange(0, i as int))),
        decreases parts@.len() - i,
    {
        let ghost before = parts@.subrange(0, i as int);
        if i > 0 {
            out.append("\n");
        }
        out.append(parts[i].as_str());
        proof {
            reveal_strlit("\n");
            let now = parts@.subrange(0, i + 1);
            assert(texts(now).drop_last() == texts(before));
            assert(texts(now).last() == parts@[i as int]@);
            if i == 0 {
                assert(texts(before).len() == 0);
                assert(out@ == texts(now)[0]);
            }
        }
        i = i + 1;
    }
    assert(parts@.subrange(0, parts@.len() as int) == parts@);
    out
}

/// Builds the result of one chunk's request from the reply's paragraphs, each a list of
/// sentences. A reply that could not be read (`None`) gives no translated lines, so the
/// line count differs from the request's and the chunk is retried.
pub fn bulk_from_reply<S>(
    number: i32,
    original_lines: Vec<String>,
    paragraphs: Option<Vec<Vec<String>>>,
    stats: S,
) -> (r: BulkTranslated<S>)
    ensures
        r.number == number,
        r.original_lines@ == original_lines@,
        r.stats == stats,
        paragraphs is None ==> r.translated_lines@.len() == 0,
        paragraphs matches Some(ps) ==> {
            &&& r.translated_lines@.len() == ps@.len()
            &&& forall|i: int|
                0 <= i < ps@.len() ==> (#[trigger] r.translated_lines@[i])@ == joined(
                    texts(ps@[i]@),
                )
        },
{
    let mut translated_lines: Vec<String> = Vec::new();
    match paragraphs {
        None => {},
        Some(ps) => {
            let mut i: usize = 0;
            while i < ps.len()
                invariant
                    i <= ps@.len(),
                    translated_lines@.len() == i,
                    forall|j: int|
                        0 <= j < i ==> (#[trigger] translated_lines@[j])@ == joined(
                            texts(ps@[j]@),
                        ),
                decreases ps@.len() - i,
            {
                translated_lines.push(join_lines(&ps[i]));
                i = i + 1;
            }
        },
    }
    BulkTranslated { number, original_lines, translated_lines, stats }
}

} // verus!
