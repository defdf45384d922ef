//! Run configuration: directory names, database file name, holding-folder
//! prefixes and the stop-word list of the similarity heuristic.

use vstd::prelude::*;

verus! {

pub struct Config {
    pub rom_dir: Vec<u8>,
    pub logs_dir: Vec<u8>,
    pub db_file: Vec<u8>,
    pub duplicate_prefix: Vec<u8>,
    pub unknown_prefix: Vec<u8>,
    pub buffer_size: usize,
    pub stop_words: Vec<Vec<u8>>,
}

pub ghost struct ConfigModel {
    pub rom_dir: Seq<u8>,
    pub logs_dir: Seq<u8>,
    pub db_file: Seq<u8>,
    pub duplicate_prefix: Seq<u8>,
    pub unknown_prefix: Seq<u8>,
    pub buffer_size: usize,
    pub stop_words: Seq<Seq<u8>>,
}

impl View for Config {
    type V = ConfigModel;

    open spec fn view(&self) -> ConfigModel {
        ConfigModel {
            rom_dir: self.rom_dir@,
            logs_dir: self.logs_dir@,
            db_file: self.db_file@,
            duplicate_prefix: self.duplicate_prefix@,
            unknown_prefix: self.unknown_prefix@,
            buffer_size: self.buffer_size,
            stop_words: self.stop_words@.map_values(|w: Vec<u8>| w@),
        }
    }
}

pub open spec fn default_config_model() -> ConfigModel {
    ConfigModel {
        rom_dir: seq![114u8, 111u8, 109u8, 115u8],
        logs_dir: seq![108u8, 111u8, 103u8, 115u8],
        db_file: seq![114u8, 111u8, 109u8, 95u8, 100u8, 98u8, 46u8, 106u8, 115u8, 111u8, 110u8],
        duplicate_prefix: seq![
            100u8,
            117u8,
            112u8,
            108u8,
            105u8,
            99u8,
            97u8,
            116u8,
            101u8,
            115u8,
        ],
        unknown_prefix: seq![117u8, 110u8, 107u8, 110u8, 111u8, 119u8, 110u8],
        buffer_size: 1048576,
        stop_words: seq![
            seq![116u8, 104u8, 101u8],
            seq![111u8, 102u8],
            seq![97u8, 110u8, 100u8],
            seq![97u8],
            seq![97u8, 110u8],
            seq![105u8, 110u8],
            seq![111u8, 110u8],
            seq![97u8, 116u8],
            seq![116u8, 111u8],
            seq![102u8, 111u8, 114u8],
        ],
    }
}

impl Config {
    /// The built-in configuration.
    pub fn load() -> (r: Config)
        ensures
            r@ == default_config_model(),
    {
        let stop_words: Vec<Vec<u8>> = vec![
            vec![116u8, 104u8, 101u8],
            vec![111u8, 102u8],
            vec![97u8, 110u8, 100u8],
            vec![97u8],
            vec![97u8, 110u8],
            vec![105u8, 110u8],
            vec![111u8, 110u8],
            vec![97u8, 116u8],
            vec![116u8, 111u8],
            vec![102u8, 111u8, 114u8],
        ];
        let c = Config {
            rom_dir: vec![114u8, 111u8, 109u8, 115u8],
            logs_dir: vec![108u8, 111u8, 103u8, 115u8],
            db_file: vec![114u8, 111u8, 109u8, 95u8, 100u8, 98u8, 46u8, 106u8, 115u8, 111u8, 110u8],
            duplicate_prefix: vec![100u8, 117u8, 112u8, 108u8, 105u8, 99u8, 97u8, 116u8, 101u8, 115u8],
            unknown_prefix: vec![117u8, 110u8, 107u8, 110u8, 111u8, 119u8, 110u8],
            buffer_size: 1048576,
            stop_words,
        };
        proof {
            assert(c@.rom_dir =~= default_config_model().rom_dir);
            assert(c@.logs_dir =~= default_config_model().logs_dir);
            assert(c@.db_file =~= default_config_model().db_file);
            assert(c@.duplicate_prefix =~= default_config_model().duplicate_prefix);
            assert(c@.unknown_prefix =~= default_config_model().unknown_prefix);
            assert forall|i: int| 0 <= i < c@.stop_words.len() implies c@.stop_words[i]
                =~= default_config_model().stop_words[i] by {
            }
            assert(c@.stop_words =~= default_config_model().stop_words);
            assert(c@ =~= default_config_model());
        }
        c
    }
}

} // verus!
