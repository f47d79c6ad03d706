//! Rendering a configuration into the final ordered output lines.

use vstd::prelude::*;
use vstd::string::StrSliceExecFns;
use vstd::string::StringExecFns;
use crate::config::Component;
use crate::config::ComponentV;
use crate::config::Config;
use crate::config::ConfigV;
use crate::config::Logo;
use crate::config::LogoV;
use crate::resolve::colorize;
use crate::resolve::colorized;
use crate::resolve::is_load_of;
use crate::resolve::load;
use crate::resolve::plain_out;
use crate::resolve::scan_tokens;
use crate::resolve::stripped;
use crate::resolve::Tok;
use crate::resolve::TokV;
use crate::resolve::toks;
use crate::resolve::views_of;

verus! {

/// Why a configuration cannot be rendered.
#[derive(Debug, Clone, PartialEq)]
pub enum RenderError {
    /// the premade logo is selected, and none is implemented
    NotImplemented,
}

/// `n` spaces.
pub open spec fn sp(n: nat) -> Seq<char> {
    Seq::new(n, |i: int| ' ')
}

/// The views of a line list.
pub open spec fn lines_view(v: Seq<String>) -> Seq<Seq<char>> {
    v.map_values(|s: String| s@)
}

/// The icon put before a component's name; absence is an empty prefix.
pub open spec fn icon_text(c: ComponentV) -> Seq<char> {
    match c.icon {
        Option::Some(i) => i,
        Option::None => Seq::empty(),
    }
}

/// The line block of one component, its content already resolved to
/// `loadv`: one row or two by `oneline`, a blank separator row by
/// `newline`.
pub open spec fn comp_block(c: ComponentV, oneline: bool, newline: bool, loadv: Seq<char>) -> Seq<
    Seq<char>,
> {
    let base = if oneline {
        seq![colorized(icon_text(c) + c.name + seq![':', ' '] + loadv)]
    } else {
        seq![colorized(icon_text(c) + c.name + seq![':']), colorized(loadv)]
    };
    if newline {
        base.push(Seq::empty())
    } else {
        base
    }
}

/// The concatenated line blocks of all components, in order.
pub open spec fn blocks(
    cs: Seq<ComponentV>,
    loads: Seq<Seq<char>>,
    oneline: bool,
    newline: bool,
) -> Seq<Seq<char>>
    decreases cs.len(),
{
    if cs.len() == 0 {
        Seq::empty()
    } else {
        blocks(cs.drop_last(), loads.drop_last(), oneline, newline) + comp_block(
            cs.last(),
            oneline,
            newline,
            loads.last(),
        )
    }
}

/// The raw lines a logo stands for; `Os` never reaches this point.
pub open spec fn logo_lines(l: LogoV) -> Seq<Seq<char>> {
    match l {
        LogoV::Custom(ls) => ls,
        _ => Seq::empty(),
    }
}

/// Each line colorized.
pub open spec fn colorized_lines(ls: Seq<Seq<char>>) -> Seq<Seq<char>> {
    ls.map_values(|l: Seq<char>| colorized(l))
}

/// The text column's left indent: the plain-text width of the logo's last
/// line, and zero without a logo.
pub open spec fn indent_of(ls: Seq<Seq<char>>) -> nat {
    if ls.len() == 0 {
        0
    } else {
        stripped(ls.last()).len()
    }
}

/// Logo rows and component rows merged by row index: rows present in both
/// columns are joined by `spacing` spaces; rows past the logo are indented
/// into the text column; rows past the components keep the bare logo line.
pub open spec fn merged(
    logo: Seq<Seq<char>>,
    comps: Seq<Seq<char>>,
    indent: nat,
    spacing: nat,
) -> Seq<Seq<char>> {
    Seq::new(
        if logo.len() >= comps.len() {
            logo.len()
        } else {
            comps.len()
        },
        |i: int|
            if i < logo.len() {
                if i < comps.len() {
                    logo[i] + sp(spacing) + comps[i]
                } else {
                    logo[i]
                }
            } else {
                sp(indent) + (if logo.len() > 0 {
                    sp(spacing)
                } else {
                    Seq::empty()
                }) + comps[i]
            },
    )
}

/// The full output of a configuration, its components' contents already
/// resolved to `loads`.
pub open spec fn rendered(cfg: ConfigV, loads: Seq<Seq<char>>) -> Seq<Seq<char>> {
    let logo = logo_lines(cfg.logo);
    merged(
        colorized_lines(logo),
        blocks(cfg.components, loads, cfg.oneline, cfg.newline),
        indent_of(logo),
        cfg.spacing,
    )
}

/// Each component's content resolved by the placeholder resolver.
pub open spec fn loads_ok(cs: Seq<ComponentV>, loads: Seq<Seq<char>>) -> bool {
    loads.len() == cs.len() && (forall|i: int|
        0 <= i < cs.len() ==> is_load_of(cs[i].content, #[trigger] loads[i]))
}

/// With no logo and no components nothing is rendered.
pub proof fn lemma_render_empty(cfg: ConfigV, loads: Seq<Seq<char>>)
    requires
        cfg.logo is Disabled,
        cfg.components.len() == 0,
        loads.len() == 0,
    ensures
        rendered(cfg, loads) =~= Seq::<Seq<char>>::empty(),
{
}

/// One token extends plain text by its literal part.
proof fn lemma_plain_step(all: Seq<TokV>, k: int)
    requires
        0 <= k < all.len(),
    ensures
        plain_out(all.take(k + 1)) == plain_out(all.take(k)) + (match all[k] {
            TokV::Lit(x) => x,
            TokV::Dir(_) => Seq::empty(),
        }),
{
    assert(all.take(k + 1).drop_last() =~= all.take(k));
    assert(all.take(k + 1).last() == all[k]);
}

/// `text` with its color markup removed.
pub fn strip_markup(text: &str) -> (r: String)
    ensures
        r@ == stripped(text@),
{
    let toks_v = scan_tokens(text, '[', ']');
    let mut out = String::new();
    let mut k: usize = 0;
    while k < toks_v.len()
        invariant
            k <= toks_v@.len(),
            views_of(toks_v@) == toks(text@, '[', ']'),
            out@ == plain_out(views_of(toks_v@).take(k as int)),
        decreases toks_v@.len() - k,
    {
        proof {
            lemma_plain_step(views_of(toks_v@), k as int);
            assert(views_of(toks_v@)[k as int] == toks_v@[k as int]@);
        }
        match &toks_v[k] {
            Tok::Lit(s) => {
                out.append(s.as_str());
            },
            Tok::Dir(_nm) => {
                proof {
                    assert(out@ + Seq::<char>::empty() =~= out@);
                }
            },
        }
        k += 1;
    }
    proof {
        assert(views_of(toks_v@).take(toks_v@.len() as int) =~= views_of(toks_v@));
    }
    out
}

/// The text column's left indent under this logo: the plain-text width of
/// its last line.
pub fn indentation(logo: &Vec<String>) -> (r: usize)
    requires
        logo@.len() > 0,
    ensures
        r == indent_of(lines_view(logo@)),
{
    let last = strip_markup(logo[logo.len() - 1].as_str());
    proof {
        assert(lines_view(logo@).last() == logo@.last()@);
    }
    last.as_str().unicode_len()
}

/// `n` spaces.
pub fn spaces(n: usize) -> (r: String)
    ensures
        r@ == sp(n as nat),
{
    proof {
        reveal_strlit(" ");
    }
    let mut out = String::new();
    let mut k: usize = 0;
    while k < n
        invariant
            k <= n,
            out@ =~= sp(k as nat),
        decreases n - k,
    {
        out.append(" ");
        proof {
            reveal_strlit(" ");
            assert(" "@ =~= seq![' ']);
            assert(out@ =~= sp((k + 1) as nat));
        }
        k += 1;
    }
    proof {
        assert(out@ =~= sp(n as nat));
    }
    out
}

/// Each logo line colorized.
fn colorize_lines(v: &Vec<String>) -> (r: Vec<String>)
    ensures
        lines_view(r@) == colorized_lines(lines_view(v@)),
{
    let mut out: Vec<String> = Vec::new();
    let mut j: usize = 0;
    while j < v.len()
        invariant
            j <= v@.len(),
            lines_view(out@) =~= colorized_lines(lines_view(v@)).take(j as int),
        decreases v@.len() - j,
    {
        let ghost prev = out@;
        let cl = colorize(v[j].as_str());
        let ghost clv = cl@;
        out.push(cl);
        proof {
            let lv = lines_view(v@);
            assert(colorized_lines(lv)[j as int] == colorized(lv[j as int]));
            assert(clv == colorized(lv[j as int]));
            assert(out@ == prev.push(cl));
            assert(lines_view(out@) =~= lines_view(prev).push(clv));
            assert(lines_view(prev) == colorized_lines(lv).take(j as int));
            assert(colorized_lines(lv).take(j + 1) =~= colorized_lines(lv).take(j as int).push(
                colorized(lv[j as int]),
            ));
            assert(lines_view(out@) == colorized_lines(lv).take(j + 1));
        }
        j += 1;
    }
    proof {
        assert(colorized_lines(lines_view(v@)).take(v@.len() as int) =~= colorized_lines(
            lines_view(v@),
        ));
    }
    out
}

/// The concatenated line blocks of all components: the content resolved,
/// everything colorized, one or two rows per component and a separator
/// row as configured.
fn build_blocks(components: &Vec<Component>, oneline: bool, newline: bool) -> (r: (
    Vec<String>,
    Ghost<Seq<Seq<char>>>,
))
    ensures
        loads_ok(components@.map_values(|c: Component| c@), r.1@),
        lines_view(r.0@) == blocks(
            components@.map_values(|c: Component| c@),
            r.1@,
            oneline,
            newline,
        ),
{
    let ghost cvs = components@.map_values(|c: Component| c@);
    let mut comps: Vec<String> = Vec::new();
    let ghost mut loads: Seq<Seq<char>> = Seq::empty();
    let mut ci: usize = 0;
    while ci < components.len()
        invariant
            ci <= components@.len(),
            cvs == components@.map_values(|c: Component| c@),
            loads.len() == ci,
            forall|i: int| 0 <= i < ci ==> is_load_of(cvs[i].content, #[trigger] loads[i]),
            lines_view(comps@) =~= blocks(cvs.take(ci as int), loads, oneline, newline),
        decreases components@.len() - ci,
    {
        proof {
            reveal_strlit(":");
            reveal_strlit(": ");
        }
        let ghost prev_loads = loads;
        let ghost prev_lines = lines_view(comps@);
        let c = &components[ci];
        let ghost cv = cvs[ci as int];
        let loaded = load(c.content.as_str());
        proof {
            loads = loads.push(loaded@);
        }
        let mut head: String = match &c.icon {
            Some(i) => i.clone(),
            None => String::new(),
        };
        proof {
            assert(head@ == icon_text(cv));
        }
        head.append(c.name.as_str());
        if oneline {
            head.append(": ");
            head.append(loaded.as_str());
            proof {
                assert(head@ =~= icon_text(cv) + cv.name + seq![':', ' '] + loaded@);
            }
            comps.push(colorize(head.as_str()));
        } else {
            head.append(":");
            proof {
                assert(head@ =~= icon_text(cv) + cv.name + seq![':']);
            }
            comps.push(colorize(head.as_str()));
            comps.push(colorize(loaded.as_str()));
        }
        if newline {
            comps.push(String::new());
        }
        proof {
            let taken = cvs.take(ci + 1);
            assert(taken.drop_last() =~= cvs.take(ci as int));
            assert(loads.drop_last() =~= prev_loads);
            assert(taken.last() == cv);
            assert(loads.last() == loaded@);
            assert(lines_view(comps@) =~= prev_lines + comp_block(cv, oneline, newline, loaded@));
            assert(blocks(taken, loads, oneline, newline) == blocks(
                taken.drop_last(),
                loads.drop_last(),
                oneline,
                newline,
            ) + comp_block(taken.last(), oneline, newline, loads.last()));
            assert(lines_view(comps@) =~= blocks(taken, loads, oneline, newline));
        }
        ci += 1;
    }
    proof {
        assert(cvs.take(cvs.len() as int) =~= cvs);
    }
    (comps, Ghost(loads))
}

/// Merge the logo column and the component column row by row.
fn merge_lines(logo_col: Vec<String>, comps: Vec<String>, indent: usize, spacing: usize) -> (r:
    Vec<String>)
    ensures
        lines_view(r@) == merged(
            lines_view(logo_col@),
            lines_view(comps@),
            indent as nat,
            spacing as nat,
        ),
{
    let ghost target = merged(
        lines_view(logo_col@),
        lines_view(comps@),
        indent as nat,
        spacing as nat,
    );
    let had_logo = logo_col.len() > 0;
    let n_out = if logo_col.len() >= comps.len() {
        logo_col.len()
    } else {
        comps.len()
    };
    proof {
        assert(target.len() == n_out);
    }
    let mut output: Vec<String> = Vec::new();
    let mut i: usize = 0;
    while i < n_out
        invariant
            i <= n_out,
            n_out == target.len(),
            target == merged(
                lines_view(logo_col@),
                lines_view(comps@),
                indent as nat,
                spacing as nat,
            ),
            n_out >= logo_col@.len(),
            n_out >= comps@.len(),
            n_out <= logo_col@.len() + comps@.len(),
            had_logo <==> logo_col@.len() > 0,
            lines_view(output@) =~= target.take(i as int),
        decreases n_out - i,
    {
        let line: String = if i < logo_col.len() {
            if i < comps.len() {
                let mut l = logo_col[i].clone();
                l.append(spaces(spacing).as_str());
                l.append(comps[i].as_str());
                l
            } else {
                logo_col[i].clone()
            }
        } else {
            let mut l = spaces(indent);
            if had_logo {
                l.append(spaces(spacing).as_str());
            }
            l.append(comps[i].as_str());
            proof {
                if !had_logo {
                    assert(l@ =~= sp(indent as nat) + Seq::<char>::empty() + comps@[i as int]@);
                }
            }
            l
        };
        proof {
            assert(line@ =~= target[i as int]);
        }
        let ghost prev = output@;
        let ghost linev = line@;
        output.push(line);
        proof {
            assert(output@ == prev.push(line));
            assert(lines_view(output@) =~= lines_view(prev).push(linev));
            assert(lines_view(prev) == target.take(i as int));
            assert(target.take(i + 1) =~= target.take(i as int).push(target[i as int]));
            assert(lines_view(output@) == target.take(i + 1));
        }
        i += 1;
    }
    proof {
        assert(lines_view(output@) =~= target);
    }
    output
}

/// Render a configuration into its output lines.
///
/// Each component's content has its placeholders resolved, one
/// system-facts query per occurrence in scan order, and the resolved text
/// is colorized; logo lines are colorized as they stand; the two columns
/// are then merged row by row.  Selecting the premade logo fails: none is
/// implemented.
pub fn render(cfg: Config) -> (r: Result<Vec<String>, RenderError>)
    ensures
        r is Err <==> cfg@.logo is Os,
        r matches Err(e) ==> e is NotImplemented,
        r matches Ok(lines) ==> exists|loads: Seq<Seq<char>>|
            loads_ok(cfg@.components, loads) && lines_view(lines@) == rendered(cfg@, loads),
{
    let ghost cfgv = cfg@;
    let Config { logo, components, newline, spacing, oneline } = cfg;
    let colorless_logo: Vec<String> = match logo {
        Logo::Os => {
            return Err(RenderError::NotImplemented);
        },
        Logo::Custom(l) => l,
        Logo::Disabled => Vec::new(),
    };
    proof {
        assert(logo_lines(cfgv.logo) =~= lines_view(colorless_logo@));
    }
    let mut indent: usize = 0;
    let mut logo_col: Vec<String> = Vec::new();
    if colorless_logo.len() > 0 {
        indent = indentation(&colorless_logo);
        logo_col = colorize_lines(&colorless_logo);
    } else {
        proof {
            assert(colorized_lines(lines_view(colorless_logo@)) =~= Seq::<Seq<char>>::empty());
        }
    }
    proof {
        assert(lines_view(logo_col@) == colorized_lines(logo_lines(cfgv.logo)));
        assert(indent == indent_of(logo_lines(cfgv.logo)));
    }
    let (comps, loads_g) = build_blocks(&components, oneline, newline);
    let ghost loads = loads_g@;
    proof {
        assert(cfgv.components == components@.map_values(|c: Component| c@));
    }
    let output = merge_lines(logo_col, comps, indent, spacing);
    proof {
        assert(lines_view(output@) == rendered(cfgv, loads));
        assert(loads_ok(cfgv.components, loads));
    }
    Ok(output)
}

} // verus!
