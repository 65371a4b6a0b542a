//! Which editor menu entries are live in a given view mode.
//!
//! A view-mode identifier that mentions `code` selects the code editor;
//! there the formatting entries go dead and the document formatter
//! comes alive, and the view-toggle entry offers the way back.

use vstd::prelude::*;

verus! {

/// `needle` occurs in `hay` starting at position `i`.
pub open spec fn contains_at(hay: Seq<char>, needle: Seq<char>, i: int) -> bool {
    0 <= i && i + needle.len() <= hay.len() && hay.subrange(i, i + needle.len()) == needle
}

/// `needle` occurs somewhere in `hay`.
pub open spec fn contains_seq(hay: Seq<char>, needle: Seq<char>) -> bool {
    exists|i: int| contains_at(hay, needle, i)
}

/// A view mode selects the code editor when its identifier mentions
/// `code`.
pub open spec fn is_code_mode(mode: Seq<char>) -> bool {
    contains_seq(mode, "code"@)
}

/// The label of the view-toggle entry: it names the view the toggle
/// would switch to.
pub open spec fn toggle_view_label_for(is_code: bool) -> Seq<char> {
    if is_code {
        "View document"@
    } else {
        "View code"@
    }
}

/// Decides whether `needle` occurs in `hay`.
pub fn str_contains(hay: &str, needle: &str) -> (r: bool)
    ensures
        r == contains_seq(hay@, needle@),
{
    let h_len = hay.unicode_len();
    let n_len = needle.unicode_len();
    if n_len > h_len {
        proof {
            assert forall|k: int| !contains_at(hay@, needle@, k) by {}
        }
        return false;
    }
    let mut i: usize = 0;
    while i <= h_len - n_len
        invariant
            h_len == hay@.len(),
            n_len == needle@.len(),
            n_len <= h_len,
            i <= h_len - n_len + 1,
            forall|k: int| 0 <= k < i ==> !contains_at(hay@, needle@, k),
        decreases h_len - n_len + 1 - i,
    {
        let mut j: usize = 0;
        let mut ok = true;
        while j < n_len
            invariant
                h_len == hay@.len(),
                n_len == needle@.len(),
                i + n_len <= h_len,
                j <= n_len,
                ok == (forall|t: int| 0 <= t < j ==> hay@[i + t] == needle@[t]),
            decreases n_len - j,
        {
            let hc = hay.get_char(i + j);
            let nc = needle.get_char(j);
            ok = ok && (hc == nc);
            j = j + 1;
        }
        if ok {
            proof {
                assert(hay@.subrange(i as int, i + n_len) =~= needle@);
                assert(contains_at(hay@, needle@, i as int));
            }
            return true;
        }
        proof {
            let t = choose|t: int| 0 <= t < n_len && hay@[i + t] != needle@[t];
            assert(!contains_at(hay@, needle@, i as int)) by {
                if contains_at(hay@, needle@, i as int) {
                    assert(hay@.subrange(i as int, i + n_len)[t] == needle@[t]);
                }
            }
        }
        i = i + 1;
    }
    proof {
        assert forall|k: int| !contains_at(hay@, needle@, k) by {
            if k >= i {
                assert(k + needle@.len() > hay@.len());
            }
        }
    }
    false
}

/// Which menu entries are live, and how the view toggle is labelled.
pub struct MenuState {
    /// Live only in the code editor.
    pub format_document_enabled: bool,
    /// Live only in the document editor.
    pub bold_enabled: bool,
    /// Live only in the document editor.
    pub italic_enabled: bool,
    /// Live only in the document editor.
    pub heading_1_enabled: bool,
    /// Live only in the document editor.
    pub heading_2_enabled: bool,
    /// Live only in the document editor.
    pub heading_3_enabled: bool,
    /// Live only in the document editor.
    pub heading_4_enabled: bool,
    /// Live only in the document editor.
    pub heading_5_enabled: bool,
    /// Live only in the document editor.
    pub insert_table_enabled: bool,
    /// Names the view the toggle would switch to.
    pub toggle_view_label: String,
}

/// Decides the menu state for a view mode: the document formatter is
/// live exactly in a code mode, the markdown formatting entries exactly
/// outside one, and the toggle is labelled with the other view.
pub fn menu_state_for_mode(mode: &str) -> (st: MenuState)
    ensures
        st.format_document_enabled == is_code_mode(mode@),
        st.bold_enabled == !is_code_mode(mode@),
        st.italic_enabled == !is_code_mode(mode@),
        st.heading_1_enabled == !is_code_mode(mode@),
        st.heading_2_enabled == !is_code_mode(mode@),
        st.heading_3_enabled == !is_code_mode(mode@),
        st.heading_4_enabled == !is_code_mode(mode@),
        st.heading_5_enabled == !is_code_mode(mode@),
        st.insert_table_enabled == !is_code_mode(mode@),
        st.toggle_view_label@ == toggle_view_label_for(is_code_mode(mode@)),
{
    let is_code = str_contains(mode, "code");
    let label = if is_code {
        "View document".to_owned()
    } else {
        "View code".to_owned()
    };
    MenuState {
        format_document_enabled: is_code,
        bold_enabled: !is_code,
        italic_enabled: !is_code,
        heading_1_enabled: !is_code,
        heading_2_enabled: !is_code,
        heading_3_enabled: !is_code,
        heading_4_enabled: !is_code,
        heading_5_enabled: !is_code,
        insert_table_enabled: !is_code,
        toggle_view_label: label,
    }
}

} // verus!
