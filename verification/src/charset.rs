use vstd::prelude::*;
use vstd::string::StringExecFns;

verus! {

/// The glyphs reports draw with.
#[derive(Debug)]
pub struct Charset {
    pub dash: String,
    pub tree_sideways_t: String,
    pub tree_corner: String,
    pub tree_pipe_gap: String,
    pub tree_space: String,
    pub chart_axis: String,
    pub chart_bar_pos: String,
    pub chart_bar_neg: String,
    pub color: bool,
}

impl Charset {
    /// Only ASCII characters. No color.
    pub fn ascii() -> (r: Charset)
        ensures
            r.dash@ == seq!['-'],
            r.tree_sideways_t@ == ("|-- ")@,
            r.tree_corner@ == ("`-- ")@,
            r.tree_pipe_gap@ == ("|   ")@,
            r.tree_space@ == ("    ")@,
            r.chart_axis@ == seq!['|'],
            r.chart_bar_pos@ == seq!['+'],
            r.chart_bar_neg@ == seq!['-'],
            r.color == false,
    {
        proof {
            reveal_strlit("-");
            reveal_strlit("|");
            reveal_strlit("+");
            assert(("-")@ =~= seq!['-']);
            assert(("|")@ =~= seq!['|']);
            assert(("+")@ =~= seq!['+']);
        }
        Charset {
            dash: String::from_str("-"),
            tree_sideways_t: String::from_str("|-- "),
            tree_corner: String::from_str("`-- "),
            tree_pipe_gap: String::from_str("|   "),
            tree_space: String::from_str("    "),
            chart_axis: String::from_str("|"),
            chart_bar_pos: String::from_str("+"),
            chart_bar_neg: String::from_str("-"),
            color: false,
        }
    }

    /// Switches the glyphs to their unicode box-drawing forms.
    pub fn with_unicode(self) -> (r: Charset)
        ensures
            r.dash@ == ("\u{2500}")@,
            r.tree_sideways_t@ == ("\u{251c}\u{2500}\u{2500} ")@,
            r.tree_corner@ == ("\u{2514}\u{2500}\u{2500} ")@,
            r.tree_pipe_gap@ == ("\u{2502}   ")@,
            r.tree_space@ == ("    ")@,
            r.chart_axis@ == ("\u{2502}")@,
            r.chart_bar_pos@ == ("\u{2588}")@,
            r.chart_bar_neg@ == ("\u{2588}")@,
            r.color == self.color,
    {
        Charset {
            dash: String::from_str("\u{2500}"),
            tree_sideways_t: String::from_str("\u{251c}\u{2500}\u{2500} "),
            tree_corner: String::from_str("\u{2514}\u{2500}\u{2500} "),
            tree_pipe_gap: String::from_str("\u{2502}   "),
            tree_space: String::from_str("    "),
            chart_axis: String::from_str("\u{2502}"),
            chart_bar_pos: String::from_str("\u{2588}"),
            chart_bar_neg: String::from_str("\u{2588}"),
            color: self.color,
        }
    }

    /// Turns colored output on.
    pub fn with_color(self) -> (r: Charset)
        ensures
            r.dash@ == self.dash@,
            r.tree_sideways_t@ == self.tree_sideways_t@,
            r.tree_corner@ == self.tree_corner@,
            r.tree_pipe_gap@ == self.tree_pipe_gap@,
            r.tree_space@ == self.tree_space@,
            r.chart_axis@ == self.chart_axis@,
            r.chart_bar_pos@ == self.chart_bar_pos@,
            r.chart_bar_neg@ == self.chart_bar_neg@,
            r.color == true,
    {
        Charset { color: true, ..self }
    }
}

impl Default for Charset {
    /// The ASCII glyphs, color off.
    fn default() -> (r: Charset)
        ensures
            r.dash@ == seq!['-'],
            r.tree_sideways_t@ == ("|-- ")@,
            r.tree_corner@ == ("`-- ")@,
            r.tree_pipe_gap@ == ("|   ")@,
            r.tree_space@ == ("    ")@,
            r.chart_axis@ == seq!['|'],
            r.chart_bar_pos@ == seq!['+'],
            r.chart_bar_neg@ == seq!['-'],
            r.color == false,
    {
        Charset::ascii()
    }
}

impl Clone for Charset {
    fn clone(&self) -> (r: Self)
        ensures
            r == *self,
    {
        Charset {
            dash: self.dash.clone(),
            tree_sideways_t: self.tree_sideways_t.clone(),
            tree_corner: self.tree_corner.clone(),
            tree_pipe_gap: self.tree_pipe_gap.clone(),
            tree_space: self.tree_space.clone(),
            chart_axis: self.chart_axis.clone(),
            chart_bar_pos: self.chart_bar_pos.clone(),
            chart_bar_neg: self.chart_bar_neg.clone(),
            color: self.color,
        }
    }
}

} // verus!
