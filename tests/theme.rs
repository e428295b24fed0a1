use beautiful_mermaid_rs::theme::{colors_from_theme, token_color, ShikiThemeFields, TokenColor};

fn fields(is_dark: bool) -> ShikiThemeFields {
    ShikiThemeFields {
        is_dark,
        editor_background: None,
        editor_foreground: None,
        line_number_foreground: None,
        focus_border: None,
        selection_background: None,
        widget_border: None,
        token_colors: Vec::new(),
    }
}

fn token(scopes: &[&str], foreground: Option<&str>) -> TokenColor {
    TokenColor {
        scopes: scopes.iter().map(|s| s.to_string()).collect(),
        foreground: foreground.map(|s| s.to_string()),
    }
}

#[test]
fn theme_fallbacks_follow_darkness() {
    let dark = colors_from_theme(&fields(true));
    assert_eq!(dark.bg, "#1e1e1e");
    assert_eq!(dark.fg, "#d4d4d4");
    assert_eq!(dark.line, None);
    assert_eq!(dark.accent, None);
    assert_eq!(dark.muted, None);
    let light = colors_from_theme(&fields(false));
    assert_eq!(light.bg, "#ffffff");
    assert_eq!(light.fg, "#333333");
}

#[test]
fn theme_colours_come_from_editor_and_tokens() {
    let mut f = fields(true);
    f.editor_background = Some("#101010".to_string());
    f.editor_foreground = Some("#eeeeee".to_string());
    f.line_number_foreground = Some("#444444".to_string());
    f.selection_background = Some("#222222".to_string());
    f.widget_border = Some("#333333".to_string());
    f.token_colors = vec![
        token(&["string"], Some("#00ff00")),
        token(&["comment", "punctuation"], Some("#888888")),
        token(&["keyword"], Some("#ff00ff")),
    ];
    let c = colors_from_theme(&f);
    assert_eq!(c.bg, "#101010");
    assert_eq!(c.fg, "#eeeeee");
    assert_eq!(c.line.as_deref(), Some("#444444"));
    assert_eq!(c.accent.as_deref(), Some("#ff00ff"));
    assert_eq!(c.muted.as_deref(), Some("#888888"));
    assert_eq!(c.surface.as_deref(), Some("#222222"));
    assert_eq!(c.border.as_deref(), Some("#333333"));

    f.focus_border = Some("#0000ff".to_string());
    f.token_colors = vec![];
    let c = colors_from_theme(&f);
    assert_eq!(c.accent.as_deref(), Some("#0000ff"));
    assert_eq!(c.muted.as_deref(), Some("#444444"));
}

#[test]
fn token_color_takes_first_matching_rule() {
    let tokens = vec![
        token(&["keyword"], None),
        token(&["keyword"], Some("#123456")),
    ];
    assert_eq!(token_color(&tokens, &"keyword".to_string()), None);
    let tokens = vec![token(&["a", "keyword"], Some("#123456")), token(&["keyword"], Some("#654321"))];
    assert_eq!(token_color(&tokens, &"keyword".to_string()).as_deref(), Some("#123456"));
    assert_eq!(token_color(&tokens, &"comment".to_string()), None);
}
