use vstd::prelude::*;

verus! {

/// A reusable piece of shader text, identified by a token derived from the
/// name of the file it was loaded from.
pub struct ShaderStructObject {
    pub token: String,
    pub data: String,
}

/// The mathematical image of a `ShaderStructObject`: its token and its text
/// as character sequences.
pub ghost struct StructObjectView {
    pub token: Seq<char>,
    pub data: Seq<char>,
}

impl View for ShaderStructObject {
    type V = StructObjectView;

    open spec fn view(&self) -> StructObjectView {
        StructObjectView { token: self.token@, data: self.data@ }
    }
}

impl ShaderStructObject {
    pub fn new(token: String, data: String) -> (r: ShaderStructObject)
        ensures
            r@.token == token@,
            r@.data == data@,
    {
        ShaderStructObject { token, data }
    }
}

/// One shader unit: its base name, its full file name with the ending kept,
/// and its text, which substitution rewrites.
pub struct ShaderCode {
    pub file_name: String,
    pub file_name_ext: String,
    pub data: String,
}

/// The mathematical image of a `ShaderCode`: its three fields as character
/// sequences.
pub ghost struct ShaderCodeView {
    pub file_name: Seq<char>,
    pub file_name_ext: Seq<char>,
    pub data: Seq<char>,
}

impl View for ShaderCode {
    type V = ShaderCodeView;

    open spec fn view(&self) -> ShaderCodeView {
        ShaderCodeView {
            file_name: self.file_name@,
            file_name_ext: self.file_name_ext@,
            data: self.data@,
        }
    }
}

impl ShaderCode {
    pub fn new(file_name: String, file_name_ext: String, data: String) -> (r: ShaderCode)
        ensures
            r@.file_name == file_name@,
            r@.file_name_ext == file_name_ext@,
            r@.data == data@,
    {
        ShaderCode { file_name, file_name_ext, data }
    }
}

} // verus!
