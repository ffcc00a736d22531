//! Presentation of results as plain text: the one-line package header, the
//! word-wrapped description block, and the package detail block.  Colour
//! and the terminal itself are outside the library: these functions
//! compute the uncoloured text.

use vstd::prelude::*;

use crate::backend::{Backend, Package, PackageInfo, PackageInfoModel, PackageModel};
use crate::text::{dec_digits, split_ws, tokens_of, trim, trim_spec, u64_to_string};

verus! {

/// One step of the greedy wrap: when the open line cannot take the next
/// word and a joining space within five columns of the width, it is
/// flushed; the word then extends the open line, after a space unless the
/// line is empty.
pub open spec fn wrap_step(
    acc: Seq<Seq<char>>,
    line: Seq<char>,
    toks: Seq<Seq<char>>,
    width: int,
) -> (Seq<Seq<char>>, Seq<char>)
    decreases toks.len(),
{
    if toks.len() == 0 {
        (acc, line)
    } else {
        let w = toks[0];
        let flushed = line.len() > 0 && line.len() + w.len() + 1 > width - 5;
        let acc2 = if flushed {
            acc.push(line)
        } else {
            acc
        };
        let line2: Seq<char> = if flushed {
            Seq::empty()
        } else {
            line
        };
        let line3 = if line2.len() > 0 {
            line2 + seq![' '] + w
        } else {
            w
        };
        wrap_step(acc2, line3, toks.drop_first(), width)
    }
}

/// The greedy word wrap of a description at a terminal width: the lines in
/// order, the last always present, empty when the text held no word.
pub open spec fn wrap_lines(desc: Seq<char>, width: int) -> Seq<Seq<char>> {
    let r = wrap_step(Seq::empty(), Seq::empty(), tokens_of(desc), width);
    r.0.push(r.1)
}

/// Wraps a description to the given width, counted in characters.
pub fn wrap_desc(desc: &str, width: usize) -> (r: Vec<String>)
    requires
        width >= 5,
    ensures
        r@.map_values(|s: String| s@) == wrap_lines(desc@, width as int),
{
    let toks = split_ws(desc);
    let ghost tv = toks@.map_values(|t: String| t@);
    let mut acc: Vec<String> = Vec::new();
    let mut line = String::new();
    let n = toks.len();
    let mut i: usize = 0;
    proof {
        assert(tv.skip(0) =~= tv);
        assert(acc@.map_values(|s: String| s@) =~= Seq::<Seq<char>>::empty());
    }
    while i < n
        invariant
            i <= n,
            wrap_step(Seq::empty(), Seq::empty(), tv, width as int) == wrap_step(
                acc@.map_values(|s: String| s@),
                line@,
                tv.skip(i as int),
                width as int,
            ),
        decreases n - i,
    {
        let w = &toks[i];
        proof {
            assert(tv.skip(i as int)[0] == w@);
            assert(tv.skip(i as int).drop_first() =~= tv.skip(i as int + 1));
        }
        let line_len = line.as_str().unicode_len();
        let w_len = w.as_str().unicode_len();
        if line_len > 0 && (line_len as u128) + (w_len as u128) + 1 > (width as u128) - 5 {
            let ghost a0 = acc@.map_values(|s: String| s@);
            let full_line = line;
            line = String::new();
            proof {
                assert((acc@.push(full_line)).map_values(|s: String| s@) =~= a0.push(
                    full_line@,
                ));
            }
            acc.push(full_line);
        }
        if !line.as_str().is_empty() {
            line.append(" ");
            proof {
                reveal_strlit(" ");
                assert(" "@ =~= seq![' ']);
            }
        }
        line.append(w.as_str());
        i = i + 1;
    }
    proof {
        assert(tv.skip(n as int) =~= Seq::<Seq<char>>::empty());
        assert((acc@.push(line)).map_values(|s: String| s@) =~= acc@.map_values(
            |s: String| s@,
        ).push(line@));
    }
    acc.push(line);
    acc
}

/// The header line shown for one package: backend, a slash, the package
/// name, its alias if it has one, the version, and an installed mark.
pub open spec fn header_model(bname: Seq<char>, p: PackageModel, installed: bool) -> Seq<char> {
    bname + "/"@ + p.name + " "@ + (match p.alias {
        Some(a) => "as "@ + a + " "@,
        None => Seq::<char>::empty(),
    }) + p.version + " "@ + (if installed {
        "\u{2713} "@
    } else {
        Seq::<char>::empty()
    })
}

/// Renders one package for a result listing: the header line, and the
/// description wrapped to the terminal width, or a single trimmed line
/// when the width is unknown.
pub fn display_pkg(b: &Backend, pkg: &Package, installed: bool, term_col: Option<usize>) -> (r: (
    String,
    Vec<String>,
))
    requires
        match term_col {
            Some(w) => w >= 5,
            None => true,
        },
    ensures
        r.0@ == header_model(b.name@, pkg@, installed),
        r.1@.map_values(|s: String| s@) == (match term_col {
            Some(w) => wrap_lines(pkg.desc@, w as int),
            None => seq![trim_spec(pkg.desc@)],
        }),
{
    let mut h = b.name.clone();
    h.append("/");
    h.append(pkg.name.as_str());
    h.append(" ");
    match &pkg.alias {
        Some(a) => {
            h.append("as ");
            h.append(a.as_str());
            h.append(" ");
        },
        None => {},
    }
    h.append(pkg.version.as_str());
    h.append(" ");
    if installed {
        h.append("\u{2713} ");
    }
    proof {
        assert(h@ =~= header_model(b.name@, pkg@, installed));
    }
    let desc_lines = match term_col {
        Some(w) => wrap_desc(pkg.desc.as_str(), w),
        None => {
            let t = trim(pkg.desc.as_str());
            let owned = t.to_owned();
            let mut v: Vec<String> = Vec::new();
            proof {
                assert((v@.push(owned)).map_values(|s: String| s@) =~= seq![trim_spec(
                    pkg.desc@,
                )]);
            }
            v.push(owned);
            v
        },
    };
    (h, desc_lines)
}

/// Parts joined by a separator, nothing around a single part.
pub open spec fn join_parts(parts: Seq<Seq<char>>, sep: Seq<char>) -> Seq<char>
    decreases parts.len(),
{
    if parts.len() == 0 {
        Seq::empty()
    } else if parts.len() == 1 {
        parts[0]
    } else {
        parts[0] + sep + join_parts(parts.drop_first(), sep)
    }
}

proof fn lemma_join_parts_push(parts: Seq<Seq<char>>, sep: Seq<char>, x: Seq<char>)
    requires
        parts.len() >= 1,
    ensures
        join_parts(parts.push(x), sep) == join_parts(parts, sep) + sep + x,
    decreases parts.len(),
{
    let p2 = parts.push(x);
    assert(p2[0] == parts[0]);
    if parts.len() == 1 {
        assert(p2.drop_first() =~= seq![x]);
        assert(join_parts(p2.drop_first(), sep) == x);
        assert(join_parts(parts, sep) == parts[0]);
    } else {
        assert(p2.drop_first() =~= parts.drop_first().push(x));
        lemma_join_parts_push(parts.drop_first(), sep, x);
        assert(parts[0] + sep + (join_parts(parts.drop_first(), sep) + sep + x) =~= (parts[0]
            + sep + join_parts(parts.drop_first(), sep)) + sep + x);
    }
}

/// Joins names with a comma and a space, as list-valued fields are shown.
pub fn join_comma(parts: &Vec<String>) -> (r: String)
    ensures
        r@ == join_parts(parts@.map_values(|s: String| s@), ", "@),
{
    let ghost pv = parts@.map_values(|s: String| s@);
    let n = parts.len();
    if n == 0 {
        let r = String::new();
        proof {
            assert(r@ =~= join_parts(pv, ", "@));
        }
        return r;
    }
    let mut r = parts[0].clone();
    let mut i: usize = 1;
    proof {
        assert(pv.take(1) =~= seq![pv[0]]);
    }
    while i < n
        invariant
            1 <= i <= n,
            r@ == join_parts(pv.take(i as int), ", "@),
        decreases n - i,
    {
        r.append(", ");
        r.append(parts[i].as_str());
        proof {
            assert(pv.take(i as int + 1) =~= pv.take(i as int).push(pv[i as int]));
            lemma_join_parts_push(pv.take(i as int), ", "@, pv[i as int]);
        }
        i = i + 1;
    }
    proof {
        assert(pv.take(n as int) =~= pv);
    }
    r
}

/// The text of an optional field, or the stand-in shown when it is absent.
pub open spec fn opt_text(o: Option<Seq<char>>, alt: Seq<char>) -> Seq<char> {
    match o {
        Some(x) => x,
        None => alt,
    }
}

/// The package detail block, line by line: every field labelled and
/// aligned, absent optional fields shown as unknown.  The size column is
/// handed in already humanized, since that rendering is the caller's.
pub open spec fn info_lines_model(m: PackageInfoModel, size_text: Seq<char>) -> Seq<Seq<char>> {
    seq![
        "name:         "@ + m.pkg.name,
        "version:      "@ + m.pkg.version,
        "description:  "@ + m.pkg.desc,
        "authors:      "@ + (match m.pkg.authors {
            Some(a) => join_parts(a, ", "@),
            None => "Unknown"@,
        }),
        "url:          "@ + m.pkg.url,
        "dependencies: "@ + join_parts(m.deps, ", "@),
        "license:      "@ + m.license,
        "release-Date: "@ + m.release_date,
        "source:       "@ + opt_text(m.source, "Unknown or n/a"@),
        "groups:       "@ + (match m.groups {
            Some(g) => join_parts(g, ", "@),
            None => "None"@,
        }),
        "downloads:    "@ + (match m.downloads {
            Some(d) => dec_digits(d as nat),
            None => "Unknown"@,
        }),
        "homepage:     "@ + opt_text(m.homepage, "Unknown"@),
        "size:         "@ + (match m.size {
            Some(_) => size_text,
            None => "Unknown"@,
        }),
    ]
}

fn labelled(label: &str, value: &str) -> (r: String)
    ensures
        r@ == label@ + value@,
{
    let mut r = label.to_owned();
    r.append(value);
    r
}

/// Renders the package detail block.  `size_text` is the humanized byte
/// count for the size field, used when the record carries a size.
pub fn info_lines(info: &PackageInfo, size_text: &str) -> (r: Vec<String>)
    ensures
        r@.map_values(|s: String| s@) == info_lines_model(info@, size_text@),
{
    let mut out: Vec<String> = Vec::new();
    out.push(labelled("name:         ", info.pkg.name.as_str()));
    out.push(labelled("version:      ", info.pkg.version.as_str()));
    out.push(labelled("description:  ", info.pkg.desc.as_str()));
    let authors = match &info.pkg.authors {
        Some(a) => join_comma(a),
        None => "Unknown".to_owned(),
    };
    out.push(labelled("authors:      ", authors.as_str()));
    out.push(labelled("url:          ", info.pkg.url.as_str()));
    let deps = join_comma(&info.deps);
    out.push(labelled("dependencies: ", deps.as_str()));
    out.push(labelled("license:      ", info.license.as_str()));
    out.push(labelled("release-Date: ", info.release_date.as_str()));
    let source = match &info.source {
        Some(s) => s.clone(),
        None => "Unknown or n/a".to_owned(),
    };
    out.push(labelled("source:       ", source.as_str()));
    let groups = match &info.groups {
        Some(g) => join_comma(g),
        None => "None".to_owned(),
    };
    out.push(labelled("groups:       ", groups.as_str()));
    let downloads = match info.downloads {
        Some(d) => u64_to_string(d),
        None => "Unknown".to_owned(),
    };
    out.push(labelled("downloads:    ", downloads.as_str()));
    let homepage = match &info.homepage {
        Some(h) => h.clone(),
        None => "Unknown".to_owned(),
    };
    out.push(labelled("homepage:     ", homepage.as_str()));
    let size = match info.size {
        Some(_) => size_text.to_owned(),
        None => "Unknown".to_owned(),
    };
    out.push(labelled("size:         ", size.as_str()));
    proof {
        match &info.pkg.authors {
            Some(a) => {
                assert(a.deep_view() =~= a@.map_values(|s: String| s@));
            },
            None => {},
        }
        assert(info.deps.deep_view() =~= info.deps@.map_values(|s: String| s@));
        match &info.groups {
            Some(g) => {
                assert(g.deep_view() =~= g@.map_values(|s: String| s@));
            },
            None => {},
        }
        assert(out@.map_values(|s: String| s@) =~= info_lines_model(info@, size_text@));
    }
    out
}

} // verus!
