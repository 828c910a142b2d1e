pub mod bytes;
pub mod conllu;
pub mod corpus;
pub mod markup;
pub mod opensubs18;
pub mod parallel;
pub mod termdocmat;
pub mod types;
pub mod vocab;
pub mod vrt;
pub mod zip;
