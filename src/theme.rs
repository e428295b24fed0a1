//! Diagram colours, and their derivation from an editor colour theme.

use vstd::prelude::*;

verus! {

/// The colours a diagram is drawn with.
#[derive(Debug, Clone)]
pub struct DiagramColors {
    pub bg: String,
    pub fg: String,
    pub line: Option<String>,
    pub accent: Option<String>,
    pub muted: Option<String>,
    pub surface: Option<String>,
    pub border: Option<String>,
}

/// One token-colour rule of an editor theme: the scopes it applies to and its
/// foreground colour.
#[derive(Debug, Clone)]
pub struct TokenColor {
    pub scopes: Vec<String>,
    pub foreground: Option<String>,
}

/// What colour derivation reads from an editor theme.
#[derive(Debug, Clone)]
pub struct ShikiThemeFields {
    pub is_dark: bool,
    pub editor_background: Option<String>,
    pub editor_foreground: Option<String>,
    pub line_number_foreground: Option<String>,
    pub focus_border: Option<String>,
    pub selection_background: Option<String>,
    pub widget_border: Option<String>,
    pub token_colors: Vec<TokenColor>,
}

pub open spec fn opt_view(o: Option<String>) -> Option<Seq<char>> {
    match o {
        Some(s) => Some(s@),
        None => None,
    }
}

pub open spec fn has_scope(t: TokenColor, scope: Seq<char>) -> bool {
    exists|j: int| 0 <= j < t.scopes@.len() && (#[trigger] t.scopes@[j])@ == scope
}

/// The foreground of the first rule that applies to `scope`; `None` where no rule
/// does, or where that first rule has no foreground.
pub open spec fn scope_color(tokens: Seq<TokenColor>, scope: Seq<char>) -> Option<Seq<char>>
    decreases tokens.len(),
{
    if tokens.len() == 0 {
        None
    } else if has_scope(tokens[0], scope) {
        opt_view(tokens[0].foreground)
    } else {
        scope_color(tokens.drop_first(), scope)
    }
}

pub open spec fn or_else(a: Option<Seq<char>>, b: Option<Seq<char>>) -> Option<Seq<char>> {
    match a {
        Some(x) => Some(x),
        None => b,
    }
}

fn clone_opt(o: &Option<String>) -> (r: Option<String>)
    ensures
        opt_view(r) == opt_view(*o),
{
    match o {
        Some(s) => Some(s.clone()),
        None => None,
    }
}

fn token_has_scope(t: &TokenColor, scope: &String) -> (r: bool)
    ensures
        r == has_scope(*t, scope@),
{
    let mut j: usize = 0;
    while j < t.scopes.len()
        invariant
            j <= t.scopes@.len(),
            forall|k: int| 0 <= k < j ==> (#[trigger] t.scopes@[k])@ != scope@,
        decreases t.scopes@.len() - j,
    {
        if t.scopes[j] == *scope {
            return true;
        }
        j = j + 1;
    }
    false
}

/// The foreground colour that the theme's token rules give `scope`.
pub fn token_color(tokens: &Vec<TokenColor>, scope: &String) -> (r: Option<String>)
    ensures
        opt_view(r) == scope_color(tokens@, scope@),
{
    let mut i: usize = 0;
    assert(tokens@.skip(0) =~= tokens@);
    while i < tokens.len()
        invariant
            i <= tokens@.len(),
            scope_color(tokens@, scope@) == scope_color(tokens@.skip(i as int), scope@),
        decreases tokens@.len() - i,
    {
        assert(tokens@.skip(i as int)[0] == tokens@[i as int]);
        assert(tokens@.skip(i as int).drop_first() =~= tokens@.skip(i as int + 1));
        if token_has_scope(&tokens[i], scope) {
            return clone_opt(&tokens[i].foreground);
        }
        i = i + 1;
    }
    None
}

/// Diagram colours from an editor theme: background and foreground from the editor
/// (with dark or light fallbacks), lines from line numbers, accent from the focus
/// border or else the keyword colour, muted from the comment colour or else the
/// line colour, surface from the selection, border from widget borders.
pub fn colors_from_theme(theme: &ShikiThemeFields) -> (r: DiagramColors)
    ensures
        r.bg@ == match theme.editor_background {
            Some(s) => s@,
            None => if theme.is_dark {
                "#1e1e1e"@
            } else {
                "#ffffff"@
            },
        },
        r.fg@ == match theme.editor_foreground {
            Some(s) => s@,
            None => if theme.is_dark {
                "#d4d4d4"@
            } else {
                "#333333"@
            },
        },
        opt_view(r.line) == opt_view(theme.line_number_foreground),
        opt_view(r.accent) == or_else(
            opt_view(theme.focus_border),
            scope_color(theme.token_colors@, "keyword"@),
        ),
        opt_view(r.muted) == or_else(
            scope_color(theme.token_colors@, "comment"@),
            opt_view(theme.line_number_foreground),
        ),
        opt_view(r.surface) == opt_view(theme.selection_background),
        opt_view(r.border) == opt_view(theme.widget_border),
{
    let bg = match &theme.editor_background {
        Some(s) => s.clone(),
        None => if theme.is_dark {
            "#1e1e1e".to_owned()
        } else {
            "#ffffff".to_owned()
        },
    };
    let fg = match &theme.editor_foreground {
        Some(s) => s.clone(),
        None => if theme.is_dark {
            "#d4d4d4".to_owned()
        } else {
            "#333333".to_owned()
        },
    };
    let line = clone_opt(&theme.line_number_foreground);
    let accent = match &theme.focus_border {
        Some(s) => Some(s.clone()),
        None => token_color(&theme.token_colors, &"keyword".to_owned()),
    };
    let muted = match token_color(&theme.token_colors, &"comment".to_owned()) {
        Some(s) => Some(s),
        None => clone_opt(&line),
    };
    DiagramColors {
        bg,
        fg,
        line,
        accent,
        muted,
        surface: clone_opt(&theme.selection_background),
        border: clone_opt(&theme.widget_border),
    }
}

} // verus!
