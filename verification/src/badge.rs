//! Badges: what a badge shows for given statistics and presentation
//! options. Drawing the badge is left to the caller.

use vstd::prelude::*;
use crate::magnitude::{format_magnitude, magnitude_text};
use crate::stats::{LanguageStat, LanguageStatModel};
use crate::text::same_text;

verus! {

/// The colour of the message side when none is asked for or the one asked
/// for is no colour.
pub const BLUE: &'static str = "#007ec6";

/// The colour of the label side.
pub const GREY: &'static str = "#555555";

/// The label of a badge that shows lines of code.
pub const CODE: &'static str = "lines of code";

/// The label of a badge that shows comment lines.
pub const COMMENTS: &'static str = "comments";

/// The label of a badge that shows the number of files.
pub const FILES: &'static str = "files";

/// The label of a badge that shows blank lines.
pub const BLANKS: &'static str = "blank lines";

/// The label of a badge that shows all lines.
pub const LINES: &'static str = "total lines";

/// Which count a badge shows.
#[derive(Clone, Copy, Debug, PartialEq, Eq, Structural)]
pub enum Category {
    Code,
    Files,
    Blanks,
    Comments,
    Lines,
}

/// The shape in which a badge is drawn.
#[derive(Clone, Copy, Debug, PartialEq, Eq, Structural)]
pub enum BadgeStyle {
    Flat,
    FlatSquare,
    Plastic,
    ForTheBadge,
    Social,
}

/// The category that a name asks for; any name that is none of `code`,
/// `files`, `blanks` and `comments` asks for all lines.
pub open spec fn category_named(name: Seq<char>) -> Category {
    if name == "code"@ {
        Category::Code
    } else if name == "files"@ {
        Category::Files
    } else if name == "blanks"@ {
        Category::Blanks
    } else if name == "comments"@ {
        Category::Comments
    } else {
        Category::Lines
    }
}

/// The style that a name asks for; any name that is none of `flat`,
/// `flat-square`, `plastic`, `for-the-badge` and `social` asks for the
/// flat one.
pub open spec fn style_named(name: Seq<char>) -> BadgeStyle {
    if name == "flat-square"@ {
        BadgeStyle::FlatSquare
    } else if name == "plastic"@ {
        BadgeStyle::Plastic
    } else if name == "for-the-badge"@ {
        BadgeStyle::ForTheBadge
    } else if name == "social"@ {
        BadgeStyle::Social
    } else {
        BadgeStyle::Flat
    }
}

/// The label that a badge of a category carries when none is given.
pub open spec fn default_label(category: Category) -> Seq<char> {
    match category {
        Category::Code => CODE@,
        Category::Files => FILES@,
        Category::Blanks => BLANKS@,
        Category::Comments => COMMENTS@,
        Category::Lines => LINES@,
    }
}

/// The count of a category.
pub open spec fn amount(stats: LanguageStatModel, category: Category) -> nat {
    match category {
        Category::Code => stats.code,
        Category::Files => stats.reports.len(),
        Category::Blanks => stats.blanks,
        Category::Comments => stats.comments,
        Category::Lines => stats.lines(),
    }
}

/// The category that `name` asks for.
pub fn category_of(name: &str) -> (r: Category)
    ensures
        r == category_named(name@),
{
    if same_text(name, "code") {
        Category::Code
    } else if same_text(name, "files") {
        Category::Files
    } else if same_text(name, "blanks") {
        Category::Blanks
    } else if same_text(name, "comments") {
        Category::Comments
    } else {
        Category::Lines
    }
}

/// The style that `name` asks for.
pub fn style_of(name: &str) -> (r: BadgeStyle)
    ensures
        r == style_named(name@),
{
    if same_text(name, "flat-square") {
        BadgeStyle::FlatSquare
    } else if same_text(name, "plastic") {
        BadgeStyle::Plastic
    } else if same_text(name, "for-the-badge") {
        BadgeStyle::ForTheBadge
    } else if same_text(name, "social") {
        BadgeStyle::Social
    } else {
        BadgeStyle::Flat
    }
}

/// The label that a badge of `category` carries when none is given.
pub fn label_of(category: Category) -> (r: &'static str)
    ensures
        r@ == default_label(category),
{
    match category {
        Category::Code => CODE,
        Category::Files => FILES,
        Category::Blanks => BLANKS,
        Category::Comments => COMMENTS,
        Category::Lines => LINES,
    }
}

/// The count of `category` in `stats`.
pub fn amount_of(stats: &LanguageStat, category: Category) -> (r: u64)
    ensures
        r == amount(stats@, category),
{
    match category {
        Category::Code => stats.code(),
        Category::Files => stats.files() as u64,
        Category::Blanks => stats.blanks(),
        Category::Comments => stats.comments(),
        Category::Lines => stats.lines(),
    }
}

/// The six or eight hexadecimal digits, after a `#`, of the colour that a
/// text names in the notation of style sheets; `None` when the text names
/// no colour.
pub uninterp spec fn css_hex(color: Seq<char>) -> Option<Seq<char>>;

/// Reads a colour in the notation of style sheets and writes it in
/// hexadecimal digits.
///
/// Wraps `csscolorparser::parse`, which reads names, hexadecimal digits
/// and the functional notations, and `Color::to_hex_string` on what it
/// read. The result depends on the text alone.
#[verifier::external_body]
fn parse_css_hex(color: &str) -> (r: Option<String>)
    ensures
        match r {
            Some(hex) => css_hex(color@) == Some(hex@),
            None => css_hex(color@) is None,
        },
{
    match csscolorparser::parse(color) {
        Ok(read) => Some(read.to_hex_string()),
        Err(_) => None,
    }
}

/// What a badge shows.
pub struct BadgeModel {
    pub label_text: Seq<char>,
    pub label_color: Seq<char>,
    pub message_text: Seq<char>,
    pub message_color: Seq<char>,
    pub logo: Seq<char>,
    pub embed_logo: bool,
    pub style: BadgeStyle,
}

/// What a badge shows: a label on the left, a message on the right, their
/// colours, a logo if there is one, and the style in which it is drawn.
#[derive(Debug)]
pub struct BadgeDesign {
    pub label_text: String,
    pub label_color: String,
    pub message_text: String,
    pub message_color: String,
    pub logo: String,
    pub embed_logo: bool,
    pub style: BadgeStyle,
}

impl View for BadgeDesign {
    type V = BadgeModel;

    open spec fn view(&self) -> BadgeModel {
        BadgeModel {
            label_text: self.label_text@,
            label_color: self.label_color@,
            message_text: self.message_text@,
            message_color: self.message_color@,
            logo: self.logo@,
            embed_logo: self.embed_logo,
            style: self.style,
        }
    }
}

/// The colour of the message side: the colour that was read, or blue when
/// none was.
pub open spec fn message_color_for(parsed: Option<Seq<char>>) -> Seq<char> {
    match parsed {
        Some(hex) => hex,
        None => BLUE@,
    }
}

/// The badge with the given label and message: the label side grey, the
/// logo embedded when there is one.
pub open spec fn badge_for(
    label: Seq<char>,
    message: Seq<char>,
    message_color: Seq<char>,
    style: BadgeStyle,
    logo: Seq<char>,
) -> BadgeModel {
    BadgeModel {
        label_text: label,
        label_color: GREY@,
        message_text: message,
        message_color,
        logo,
        embed_logo: logo.len() > 0,
        style,
    }
}

/// The same badge without a logo.
pub open spec fn without_logo(badge: BadgeModel) -> BadgeModel {
    BadgeModel { logo: Seq::empty(), embed_logo: false, ..badge }
}

/// The label and the message of the badge for given statistics, or `None`
/// when the statistics themselves are asked for.
///
/// A language to show takes the place of the count and keeps the label as
/// given. Otherwise the message is the count of the category, written
/// short, and the label is the one given, or that of the category when
/// none was given.
pub open spec fn badge_content(
    wants_json: bool,
    stats: LanguageStatModel,
    category: Seq<char>,
    label: Seq<char>,
    ranking_language: Seq<char>,
    no_label: bool,
) -> Option<(Seq<char>, Seq<char>)> {
    if wants_json {
        None
    } else if ranking_language.len() > 0 {
        Some((label, ranking_language))
    } else {
        let shown = category_named(category);
        Some(
            (
                if no_label {
                    default_label(shown)
                } else {
                    label
                },
                magnitude_text(amount(stats, shown)),
            ),
        )
    }
}

/// The badge with the given label and message, in the colour `parsed` that
/// was read from the request, or in blue when none was read.
pub fn badge_from(
    label: &str,
    message: &str,
    parsed: Option<String>,
    style: BadgeStyle,
    logo: &str,
) -> (r: BadgeDesign)
    ensures
        r@ == badge_for(
            label@,
            message@,
            message_color_for(
                match parsed {
                    Some(hex) => Some(hex@),
                    None => None,
                },
            ),
            style,
            logo@,
        ),
{
    BadgeDesign {
        label_text: label.to_owned(),
        label_color: GREY.to_owned(),
        message_text: message.to_owned(),
        message_color: match parsed {
            Some(hex) => hex,
            None => BLUE.to_owned(),
        },
        logo: logo.to_owned(),
        embed_logo: !logo.is_empty(),
        style,
    }
}

/// The badge with the given label and message, in the colour and style
/// that the request names, with its logo.
pub fn make_badge_style(label: &str, msg: &str, color: &str, style: &str, logo: &str) -> (r:
    BadgeDesign)
    ensures
        r@ == badge_for(
            label@,
            msg@,
            message_color_for(css_hex(color@)),
            style_named(style@),
            logo@,
        ),
{
    badge_from(label, msg, parse_css_hex(color), style_of(style), logo)
}

/// The badge to draw when `failed` could not be drawn: the same without
/// its logo.
pub fn fallback_badge(failed: &BadgeDesign) -> (r: BadgeDesign)
    ensures
        r@ == without_logo(failed@),
{
    BadgeDesign {
        label_text: failed.label_text.clone(),
        label_color: failed.label_color.clone(),
        message_text: failed.message_text.clone(),
        message_color: failed.message_color.clone(),
        logo: String::new(),
        embed_logo: false,
        style: failed.style,
    }
}

/// What to do next when drawing a badge.
pub enum Drawing {
    /// Draw this badge, and report what came of it.
    Draw(BadgeDesign),
    /// The badge is drawn; this is its image.
    Show(String),
    /// The badge cannot be drawn.
    GiveUp,
}

/// What a drawing step holds.
pub enum DrawingModel {
    Draw(BadgeModel),
    Show(Seq<char>),
    GiveUp,
}

impl View for Drawing {
    type V = DrawingModel;

    open spec fn view(&self) -> DrawingModel {
        match self {
            Drawing::Draw(badge) => DrawingModel::Draw(badge@),
            Drawing::Show(image) => DrawingModel::Show(image@),
            Drawing::GiveUp => DrawingModel::GiveUp,
        }
    }
}

/// What to do after `badge` was drawn with the outcome `image`, when
/// `retried` tells whether this was the second attempt already.
///
/// An image is shown. After a first failure the badge is drawn once more
/// without its logo; after a second there is nothing left to try.
pub fn next_drawing(badge: &BadgeDesign, retried: bool, image: Option<String>) -> (r: Drawing)
    ensures
        r@ == match image {
            Some(drawn) => DrawingModel::Show(drawn@),
            None => if retried {
                DrawingModel::GiveUp
            } else {
                DrawingModel::Draw(without_logo(badge@))
            },
        },
{
    match image {
        Some(drawn) => Drawing::Show(drawn),
        None => if retried {
            Drawing::GiveUp
        } else {
            Drawing::Draw(fallback_badge(badge))
        },
    }
}

/// What is sent for a badge request.
pub enum BadgeBody {
    /// The statistics themselves, for the caller to serialise.
    Json,
    /// An image of this badge.
    Image(BadgeDesign),
}

/// What is sent for given statistics and presentation options: the
/// statistics themselves when `wants_json` is set, and else the badge
/// that shows `ranking_language`, or, when that is empty, the count of
/// `category` written short.
pub fn make_badge(
    wants_json: bool,
    stats: &LanguageStat,
    category: &str,
    label: &str,
    style: &str,
    color: &str,
    logo: &str,
    ranking_language: &str,
    no_label: bool,
) -> (r: BadgeBody)
    ensures
        match r {
            BadgeBody::Json => badge_content(
                wants_json,
                stats@,
                category@,
                label@,
                ranking_language@,
                no_label,
            ) is None,
            BadgeBody::Image(badge) => badge_content(
                wants_json,
                stats@,
                category@,
                label@,
                ranking_language@,
                no_label,
            ) matches Some((shown_label, message)) && badge@ == badge_for(
                shown_label,
                message,
                message_color_for(css_hex(color@)),
                style_named(style@),
                logo@,
            ),
        },
{
    if wants_json {
        return BadgeBody::Json;
    }
    if !ranking_language.is_empty() {
        return BadgeBody::Image(make_badge_style(label, ranking_language, color, style, logo));
    }
    let shown = category_of(category);
    let count = format_magnitude(amount_of(stats, shown));
    let shown_label = if no_label {
        label_of(shown)
    } else {
        label
    };
    BadgeBody::Image(make_badge_style(shown_label, count.as_str(), color, style, logo))
}

} // verus!
