use vstd::prelude::*;

verus! {

/// A key press, as the menus see it.
#[derive(Clone, Copy, Debug, PartialEq, Eq, Structural)]
pub enum Key {
    Left,
    Right,
    Up,
    Down,
    Char(char),
    Other,
}

/// Position `p` of `n` positions in a circle, for `p` from `-n` to `2n - 1`.
pub open spec fn wrap(p: int, n: int) -> int {
    if p < 0 {
        p + n
    } else if p >= n {
        p - n
    } else {
        p
    }
}

/// Scanning `k` steps and on from position `i` in direction `dir` (1 to
/// the right, -1 to the left), the first position not in `chosen`; the
/// position after `n` steps if there is none.
pub open spec fn scan(chosen: Seq<usize>, n: int, i: int, dir: int, k: int) -> int
    decreases n - k,
{
    let x = wrap(i + dir * k, n);
    if !chosen.contains(x as usize) || k >= n {
        x
    } else {
        scan(chosen, n, i, dir, k + 1)
    }
}

/// Whether `x` is among the chosen positions.
fn is_chosen(chosen: &Vec<usize>, x: usize) -> (found: bool)
    ensures
        found == chosen@.contains(x),
{
    let mut i: usize = 0;
    while i < chosen.len()
        invariant
            i <= chosen.len(),
            forall|j: int| 0 <= j < i ==> chosen@[j] != x,
        decreases chosen.len() - i,
    {
        if chosen[i] == x {
            return true;
        }
        i = i + 1;
    }
    false
}

/// The menu in which a player picks, one by one, the dice to hold: a
/// cursor over the free dice and the positions picked so far.
pub struct DiceSelection {
    pub cursor: Option<usize>,
    pub chosen: Vec<usize>,
}

impl DiceSelection {
    /// A menu with no cursor and nothing picked.
    pub fn new() -> (menu: DiceSelection)
        ensures
            menu.cursor is None,
            menu.chosen@.len() == 0,
    {
        DiceSelection { cursor: None, chosen: Vec::new() }
    }

    /// The menu is one for `n` dice: no die is picked twice, and the cursor
    /// and the picks are on dice (or on the first position, with no dice).
    pub open spec fn wf(self, n: nat) -> bool {
        &&& self.chosen@.no_duplicates()
        &&& self.cursor matches Some(i) ==> i < n || i == 0
        &&& forall|k: int| 0 <= k < self.chosen@.len() ==> #[trigger] self.chosen@[k] < n || self.chosen@[k] == 0
    }

    /// Some die is not picked yet.
    pub open spec fn has_free(self, n: nat) -> bool {
        exists|j: usize| j < n && !#[trigger] self.chosen@.contains(j)
    }

    /// Handles one key press in a menu for `num_dice` dice, and tells
    /// whether the choice is complete. Right and Left move the cursor to the
    /// next die not yet picked, wrapping around (Left from the first die goes
    /// straight to the last one, and with no cursor Left starts at the last
    /// die and Right at the first); 'u' drops the die picked last; space
    /// picks the die under the cursor unless it is picked already; Enter
    /// completes the choice.
    pub fn press(&mut self, key: Key, num_dice: usize) -> (done: bool)
        requires
            old(self).wf(num_dice as nat),
            key == Key::Left ==> num_dice > 0,
            (key == Key::Right && old(self).cursor is Some) ==> old(self).has_free(num_dice as nat),
            (key == Key::Left && (old(self).cursor matches Some(i) && i > 0)) ==> old(self).has_free(
                num_dice as nat,
            ),
        ensures
            final(self).wf(num_dice as nat),
            done == (key == Key::Char('\n')),
            key == Key::Right ==> final(self).chosen@ == old(self).chosen@ && final(self).cursor == match old(
                self,
            ).cursor {
                Some(i) => Some(scan(old(self).chosen@, num_dice as int, i as int, 1, 1) as usize),
                None => Some(0usize),
            },
            key == Key::Left ==> final(self).chosen@ == old(self).chosen@ && final(self).cursor == match old(
                self,
            ).cursor {
                Some(i) => if i == 0 {
                    Some((num_dice - 1) as usize)
                } else {
                    Some(scan(old(self).chosen@, num_dice as int, i as int, -1, 1) as usize)
                },
                None => Some((num_dice - 1) as usize),
            },
            key == Key::Char('u') ==> final(self).cursor == old(self).cursor && final(self).chosen@ == if old(
                self,
            ).chosen@.len() > 0 {
                old(self).chosen@.drop_last()
            } else {
                old(self).chosen@
            },
            key == Key::Char(' ') ==> final(self).cursor == old(self).cursor && final(self).chosen@ == match old(
                self,
            ).cursor {
                Some(i) => if old(self).chosen@.contains(i) {
                    old(self).chosen@
                } else {
                    old(self).chosen@.push(i)
                },
                None => old(self).chosen@,
            },
            !(key == Key::Right || key == Key::Left || key == Key::Char('u') || key == Key::Char(' '))
                ==> final(self).cursor == old(self).cursor && final(self).chosen@ == old(self).chosen@,
    {
        let n = num_dice;
        match key {
            Key::Right => {
                match self.cursor {
                    Some(i) => {
                        let ghost chosen = self.chosen@;
                        let ghost j = choose|j: usize| j < n && !#[trigger] chosen.contains(j);
                        let mut x = i;
                        let ghost mut k: int = 0;
                        loop
                            invariant_except_break
                                i < n,
                                j < n,
                                !chosen.contains(j),
                                0 <= k < n,
                                x == wrap(i + k, n as int),
                                forall|t: int| 1 <= t <= k ==> chosen.contains(#[trigger] wrap(i + t, n as int) as usize),
                                scan(chosen, n as int, i as int, 1, 1) == scan(chosen, n as int, i as int, 1, k + 1),
                            invariant
                                self.chosen@ == chosen,
                                self.cursor == Some(i),
                            ensures
                                x == scan(chosen, n as int, i as int, 1, 1),
                                x < n,
                            decreases n - k,
                        {
                            x = x + 1;
                            assert(x % n == if x < n { x } else { 0 }) by (nonlinear_arith)
                                requires
                                    1 <= x <= n,
                            ;
                            x = x % n;
                            proof {
                                k = k + 1;
                            }
                            if !is_chosen(&self.chosen, x) {
                                break;
                            }
                            proof {
                                let t = if j > i { j - i } else { j + n - i };
                                assert(wrap(i + t, n as int) == j);
                                assert(t > k);
                            }
                        }
                        self.cursor = Some(x);
                    },
                    None => {
                        self.cursor = Some(0);
                    },
                }
                assert(self.chosen@ =~= old(self).chosen@);
                false
            },
            Key::Left => {
                match self.cursor {
                    Some(i) => {
                        if i == 0 {
                            self.cursor = Some(n - 1);
                        } else {
                            let ghost chosen = self.chosen@;
                            let ghost j = choose|j: usize| j < n && !#[trigger] chosen.contains(j);
                            let mut x = i;
                            let ghost mut k: int = 0;
                            loop
                                invariant_except_break
                                    i < n,
                                    j < n,
                                    !chosen.contains(j),
                                    0 <= k < n,
                                    x == wrap(i - k, n as int),
                                    forall|t: int|
                                        1 <= t <= k ==> chosen.contains(#[trigger] wrap(i - t, n as int) as usize),
                                    scan(chosen, n as int, i as int, -1, 1) == scan(
                                        chosen,
                                        n as int,
                                        i as int,
                                        -1,
                                        k + 1,
                                    ),
                                invariant
                                    self.chosen@ == chosen,
                                    self.cursor == Some(i),
                                ensures
                                    x == scan(chosen, n as int, i as int, -1, 1),
                                    x < n,
                                decreases n - k,
                            {
                                if x == 0 {
                                    x = n - 1;
                                } else {
                                    x = x - 1;
                                }
                                proof {
                                    k = k + 1;
                                }
                                if !is_chosen(&self.chosen, x) {
                                    break;
                                }
                                proof {
                                    let t = if j < i { i - j } else { i + n - j };
                                    assert(wrap(i - t, n as int) == j);
                                    assert(t > k);
                                }
                            }
                            self.cursor = Some(x);
                        }
                    },
                    None => {
                        self.cursor = Some(n - 1);
                    },
                }
                assert(self.chosen@ =~= old(self).chosen@);
                false
            },
            Key::Char('u') => {
                self.chosen.pop();
                assert(self.chosen@.no_duplicates());
                false
            },
            Key::Char(' ') => {
                match self.cursor {
                    Some(i) => {
                        if !is_chosen(&self.chosen, i) {
                            self.chosen.push(i);
                        }
                    },
                    None => {},
                }
                false
            },
            Key::Char('\n') => true,
            _ => false,
        }
    }
}

/// The menu in which a player picks the category to score: the row under
/// the cursor.
pub struct ScoreMenu {
    pub row: usize,
}

impl ScoreMenu {
    /// A menu with the cursor on the first row.
    pub fn new() -> (menu: ScoreMenu)
        ensures
            menu.row == 0,
    {
        ScoreMenu { row: 0 }
    }

    /// Handles one key press in a menu of `len` rows, and tells whether the
    /// choice is made. Up and Down move the cursor, wrapping around; space
    /// or Enter makes the choice.
    pub fn press(&mut self, key: Key, len: usize) -> (done: bool)
        requires
            (key == Key::Up || key == Key::Down) ==> old(self).row < len,
        ensures
            old(self).row < len ==> final(self).row < len,
            done == (key == Key::Char(' ') || key == Key::Char('\n')),
            final(self).row == match key {
                Key::Up => if old(self).row == 0 {
                    (len - 1) as usize
                } else {
                    (old(self).row - 1) as usize
                },
                Key::Down => ((old(self).row + 1) % (len as int)) as usize,
                _ => old(self).row,
            },
    {
        match key {
            Key::Up => {
                if self.row == 0 {
                    self.row = len - 1;
                } else {
                    self.row = self.row - 1;
                }
                false
            },
            Key::Down => {
                self.row = (self.row + 1) % len;
                false
            },
            Key::Char(c) => c == ' ' || c == '\n',
            _ => false,
        }
    }
}

/// The three rows of pips of a large die showing `value`.
pub fn die_rows(value: u32) -> (rows: (&'static str, &'static str, &'static str))
    ensures
        rows.0@ == if value == 1 {
            "     "@
        } else if value == 2 || value == 3 {
            "o    "@
        } else {
            "o   o"@
        },
        rows.1@ == if value % 2 == 1 {
            "  o  "@
        } else if value == 6 {
            "o   o"@
        } else {
            "     "@
        },
        rows.2@ == if value == 1 {
            "     "@
        } else if value == 2 || value == 3 {
            "    o"@
        } else {
            "o   o"@
        },
{
    let top_row = match value {
        1 => "     ",
        2 => "o    ",
        3 => "o    ",
        _ => "o   o",
    };
    let middle_row = if value % 2 == 1 {
        "  o  "
    } else if value == 6 {
        "o   o"
    } else {
        "     "
    };
    let bottom_row = match value {
        1 => "     ",
        2 => "    o",
        3 => "    o",
        _ => "o   o",
    };
    (top_row, middle_row, bottom_row)
}

/// The face of a small held die showing `value`; empty for a value that is
/// no face.
pub fn locked_die_face(value: u32) -> (face: &'static str)
    ensures
        face@ == if value == 1 {
            " · "@
        } else if value == 2 {
            ". ˙"@
        } else if value == 3 {
            ".·˙"@
        } else if value == 4 {
            ": :"@
        } else if value == 5 {
            ":·:"@
        } else if value == 6 {
            ":::"@
        } else {
            ""@
        },
{
    match value {
        1 => " · ",
        2 => ". ˙",
        3 => ".·˙",
        4 => ": :",
        5 => ":·:",
        6 => ":::",
        _ => "",
    }
}

} // verus!
