//! furrow: a static site generator's building blocks. `md` renders a
//! markdown subset to HTML; `html` escapes text and wraps pages in a shell;
//! `github` reads repository data and dates a build; `date` names the
//! calendar date of a day; `serve` decides what a development server
//! answers; `text` holds the character-level helpers they share. Each
//! function states what it returns, exactly, over the specifications
//! beside it.
pub mod date;
pub mod github;
pub mod html;
pub mod md;
pub mod serve;
pub mod tags;
pub mod text;
