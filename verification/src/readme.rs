use vstd::prelude::*;

use crate::text::{push_char, push_str};

verus! {

/// The last line of every generated README.
pub const README_FOOTER: &'static str = "*README generated by [FigVCS](https://github.com/catsizedcoder/FigVCS) from avatar.json*\n";

/// The items joined with `, ` between them.
pub open spec fn join_comma(items: Seq<Seq<char>>) -> Seq<char>
    decreases items.len(),
{
    if items.len() == 0 {
        seq![]
    } else if items.len() == 1 {
        items[0]
    } else {
        join_comma(items.drop_last()) + seq![',', ' '] + items.last()
    }
}

/// The README made from an avatar's name, description and authors: a title,
/// the description when it is not empty, a `by` line when there are authors,
/// and the footer.
pub open spec fn readme_spec(name: Seq<char>, description: Option<Seq<char>>, authors: Seq<Seq<char>>, footer: Seq<char>) -> Seq<char> {
    let title = seq!['#', ' '] + name + seq!['\n', '\n'];
    let desc = match description {
        Some(d) => if d.len() > 0 { d + seq!['\n', '\n'] } else { seq![] },
        None => seq![],
    };
    let by = if authors.len() > 0 { seq!['b', 'y', ' '] + join_comma(authors) + seq!['\n', '\n'] } else { seq![] };
    title + desc + by + footer
}

/// The README text for an avatar (see `readme_spec`).
pub fn readme_text(name: &str, description: Option<&str>, authors: &Vec<String>) -> (out: String)
    ensures
        out@ == readme_spec(name@, match description { Some(d) => Some(d@), None => None }, authors@.map_values(|a: String| a@), README_FOOTER@),
{
    let ghost names = authors@.map_values(|a: String| a@);
    let mut out = String::new();
    push_char(&mut out, '#');
    push_char(&mut out, ' ');
    push_str(&mut out, name);
    push_char(&mut out, '\n');
    push_char(&mut out, '\n');
    let ghost title = seq!['#', ' '] + name@ + seq!['\n', '\n'];
    assert(out@ =~= title);
    let ghost desc = match description {
        Some(d) => if d@.len() > 0 { d@ + seq!['\n', '\n'] } else { Seq::<char>::empty() },
        None => Seq::<char>::empty(),
    };
    if let Some(d) = description {
        if !d.is_empty() {
            push_str(&mut out, d);
            push_char(&mut out, '\n');
            push_char(&mut out, '\n');
        }
    }
    assert(out@ =~= title + desc);
    let ghost head = out@;
    if authors.len() > 0 {
        push_char(&mut out, 'b');
        push_char(&mut out, 'y');
        push_char(&mut out, ' ');
        let ghost start = out@;
        let mut i: usize = 0;
        while i < authors.len()
            invariant
                i <= authors@.len(),
                names == authors@.map_values(|a: String| a@),
                out@ == start + join_comma(names.take(i as int)),
            decreases authors.len() - i,
        {
            let ghost before = out@;
            if i > 0 {
                push_char(&mut out, ',');
                push_char(&mut out, ' ');
            }
            push_str(&mut out, authors[i].as_str());
            proof {
                let t = names.take(i + 1);
                assert(t.drop_last() =~= names.take(i as int));
                assert(t.last() == authors@[i as int]@);
                if i == 0 {
                    assert(names.take(0) =~= Seq::<Seq<char>>::empty());
                    assert(out@ =~= start + join_comma(t));
                } else {
                    assert(out@ =~= start + join_comma(t));
                }
            }
            i += 1;
        }
        assert(names.take(i as int) =~= names);
        push_char(&mut out, '\n');
        push_char(&mut out, '\n');
        assert(out@ =~= head + (seq!['b', 'y', ' '] + join_comma(names) + seq!['\n', '\n']));
    } else {
        assert(names.len() == 0);
    }
    push_str(&mut out, README_FOOTER);
    out
}

} // verus!
