//! Rendering a sequence of statements back into script text.

use vstd::prelude::*;
use vstd::string::StringExecFns;

verus! {

/// The command-line surface: the paths the tool is started with.  An
/// argument-parsing front end builds this from the process arguments.
#[derive(Debug)]
pub struct Cli {
    /// The path of the script to minimise.
    pub query: String,
    /// The path of the external check script.
    pub test: String,
    /// A script to check in parse-only mode, when given.
    pub reduce: Option<String>,
}

/// Items that can be printed back into script text.
pub trait ToText {
    /// The text this item renders to.
    spec fn text(&self) -> Seq<char>;

    /// Render the item.
    fn to_text(&self) -> (r: String)
        ensures
            r@ == self.text(),
    ;
}

impl ToText for String {
    open spec fn text(&self) -> Seq<char> {
        self@
    }

    fn to_text(&self) -> (r: String) {
        self.clone()
    }
}

/// The texts of a sequence of renderable items, in order.
pub open spec fn texts_of<T: ToText>(s: Seq<T>) -> Seq<Seq<char>> {
    s.map_values(|t: T| t.text())
}

/// `ts` joined with `sep` between consecutive elements.
pub open spec fn join_texts(ts: Seq<Seq<char>>, sep: Seq<char>) -> Seq<char>
    decreases ts.len(),
{
    if ts.len() == 0 {
        Seq::empty()
    } else if ts.len() == 1 {
        ts[0]
    } else {
        ts[0] + sep + join_texts(ts.drop_first(), sep)
    }
}

/// `ts` joined with `sep`, with one trailing `sep` appended.
pub open spec fn rendered(ts: Seq<Seq<char>>, sep: Seq<char>) -> Seq<char> {
    join_texts(ts, sep) + sep
}

/// The script text of a sequence of statement texts: joined with `;` and
/// terminated by `;`.
pub open spec fn script_of(ts: Seq<Seq<char>>) -> Seq<char> {
    rendered(ts, seq![';'])
}

/// A fresh vector holding copies of the given strings.
pub fn copy_strings(v: &Vec<String>) -> (r: Vec<String>)
    ensures
        r.deep_view() == v.deep_view(),
        r@.len() == v@.len(),
{
    let mut r: Vec<String> = Vec::new();
    let mut i: usize = 0;
    while i < v.len()
        invariant
            i <= v@.len(),
            r.deep_view() == v.deep_view().subrange(0, i as int),
            r@.len() == i,
        decreases v@.len() - i,
    {
        r.push(v[i].clone());
        proof {
            assert(r.deep_view() =~= v.deep_view().subrange(0, i + 1));
        }
        i += 1;
    }
    proof {
        assert(v.deep_view().subrange(0, v@.len() as int) =~= v.deep_view());
    }
    r
}

/// Appending one element to a join extends it by a separator and that
/// element (or is that element alone, when the join was empty).
pub proof fn lemma_join_push(ts: Seq<Seq<char>>, sep: Seq<char>, t: Seq<char>)
    ensures
        ts.len() == 0 ==> join_texts(ts.push(t), sep) == t,
        ts.len() > 0 ==> join_texts(ts.push(t), sep) == join_texts(ts, sep) + sep + t,
    decreases ts.len(),
{
    if ts.len() == 0 {
        assert(ts.push(t).len() == 1);
        assert(join_texts(ts.push(t), sep) == ts.push(t)[0]);
    } else if ts.len() == 1 {
        assert(ts.push(t).drop_first() =~= seq![t]);
        assert(join_texts(seq![t], sep) == seq![t][0]);
        assert(join_texts(ts.push(t), sep) == ts[0] + sep + t);
    } else {
        assert(ts.push(t).drop_first() =~= ts.drop_first().push(t));
        lemma_join_push(ts.drop_first(), sep, t);
    }
}

/// Rendering a vector of strings with `";"` yields the script of its texts.
pub proof fn lemma_script_of_strings(v: &Vec<String>)
    ensures
        rendered(texts_of(v@), ";"@) == script_of(v.deep_view()),
{
    reveal_strlit(";");
    assert(";"@ =~= seq![';']);
    assert(texts_of(v@) =~= v.deep_view());
}

/// Join strings with `separator` between consecutive elements, with no
/// trailing separator.
pub fn join_with(v: &Vec<String>, separator: &str) -> (r: String)
    ensures
        r@ == join_texts(texts_of(v@), separator@),
{
    let ghost all = texts_of(v@);
    let mut s = String::new();
    let mut i: usize = 0;
    while i < v.len()
        invariant
            i <= v@.len(),
            all == texts_of(v@),
            s@ == join_texts(all.subrange(0, i as int), separator@),
        decreases v@.len() - i,
    {
        if i > 0 {
            s.append(separator);
        }
        s.append(v[i].as_str());
        proof {
            assert(all.subrange(0, i + 1) =~= all.subrange(0, i as int).push(v@[i as int]@));
            lemma_join_push(all.subrange(0, i as int), separator@, v@[i as int]@);
        }
        i += 1;
    }
    proof {
        assert(all.subrange(0, v@.len() as int) =~= all);
    }
    s
}

/// Render a vector of statements as one script: the items joined with
/// `separator`, and `separator` appended once at the end.
pub fn vec_statement_to_string<T: ToText>(vector: &Vec<T>, separator: &str) -> (r: String)
    ensures
        r@ == rendered(texts_of(vector@), separator@),
{
    let ghost all = texts_of(vector@);
    let mut s = String::new();
    let mut i: usize = 0;
    while i < vector.len()
        invariant
            i <= vector@.len(),
            all == texts_of(vector@),
            s@ == join_texts(all.subrange(0, i as int), separator@),
        decreases vector@.len() - i,
    {
        if i > 0 {
            s.append(separator);
        }
        let piece = vector[i].to_text();
        s.append(piece.as_str());
        proof {
            assert(all.subrange(0, i + 1) =~= all.subrange(0, i as int).push(vector@[i as int].text()));
            lemma_join_push(all.subrange(0, i as int), separator@, vector@[i as int].text());
        }
        i += 1;
    }
    proof {
        assert(all.subrange(0, vector@.len() as int) =~= all);
    }
    s.append(separator);
    s
}

} // verus!
